//! The mint ledger: edition metadata, the pending-mint workflow, the
//! per-account/per-edition balance ledger with its transfer algorithms,
//! and supply/retirement bookkeeping.

use crate::error::Message;
use crate::table::Table;
use crate::{
    get_blackhole_address, AccountId, BlockNumber, CarbonUnit, MintBeneficiaryAccount, RegistryId,
    Timestamp, TokenEditions, TokenId, Year,
};
use vstd::prelude::*;

verus! {

/// The parameters of a mint request.
pub struct MintRequestParams {
    pub registry_id: RegistryId,
    pub verified_carbon_unit: CarbonUnit,
    pub issuance_year: Year,
    pub beneficiary: MintBeneficiaryAccount,
}

/// One (edition, amount) pair, as moved by a transfer.
#[derive(Copy, Clone, PartialEq, Eq, Structural, Debug)]
pub struct TokenEdition {
    pub id: TokenId,
    pub amount: CarbonUnit,
}

/// A balance snapshot: an edition's metadata with an amount held or moved.
pub struct TokenBalanceDetail {
    pub balance: CarbonUnit,
    pub detail: Detail,
}

/// The metadata of one token edition. `supply` is the active, un-retired
/// amount; `retired` the cumulative retired amount; their sum is the
/// amount minted at approval and never changes afterwards.
pub struct Detail {
    pub id: TokenId,
    pub block_number: BlockNumber,
    pub timestamp: Timestamp,
    pub minter: AccountId,
    pub supply: CarbonUnit,
    pub retired: CarbonUnit,
    pub year: Year,
    pub registry_id: RegistryId,
}

impl Clone for Detail {
    fn clone(&self) -> (r: Self)
        ensures
            r == *self,
    {
        Detail {
            id: self.id,
            block_number: self.block_number,
            timestamp: self.timestamp,
            minter: self.minter,
            supply: self.supply,
            retired: self.retired,
            year: self.year,
            registry_id: self.registry_id.clone(),
        }
    }
}

/// A pending mint request: the edition prepared for approval, and the
/// beneficiary to credit when it comes.
pub struct PendingMint {
    pub detail: Detail,
    pub beneficiary: MintBeneficiaryAccount,
}

/// One account's balances: edition id to amount held.
pub type BalanceMap = Table<CarbonUnit>;

/// A pending request keyed by its registry reference.
pub struct PendingEntry {
    pub registry_id: RegistryId,
    pub pending: PendingMint,
}

/// The mint ledger.
pub struct Tracker {
    pub next_token_id: TokenId,
    pub last_minted_token_id: Option<TokenId>,
    pub minted_editions: Table<Detail>,
    pub pending_mint_editions: Vec<PendingEntry>,
    pub balances: Table<BalanceMap>,
    pub year_mapping: Table<Vec<TokenId>>,
}

impl Tracker {
    /// The minted editions, keyed by edition id.
    pub open spec fn minted(&self) -> Map<u64, Detail> {
        self.minted_editions.m()
    }

    /// The pending requests, keyed by registry reference.
    pub open spec fn pending(&self) -> Map<Seq<char>, PendingMint> {
        Self::pending_map_of(self.pending_mint_editions@)
    }

    /// The map a sequence of pending entries stands for.
    pub open spec fn pending_map_of(s: Seq<PendingEntry>) -> Map<Seq<char>, PendingMint>
        decreases s.len(),
    {
        if s.len() == 0 {
            Map::empty()
        } else {
            Self::pending_map_of(s.drop_last()).insert(
                s.last().registry_id@,
                s.last().pending,
            )
        }
    }

    /// The balance ledger: account to its per-edition balance map. An
    /// account with no map at all is distinct from one with an empty map.
    pub open spec fn accounts(&self) -> Map<u64, BalanceMap> {
        self.balances.m()
    }

    /// The amount the account holds of the edition: its map entry, or zero
    /// when no entry (or no map) exists.
    pub open spec fn held(&self, account: AccountId, token_id: u64) -> int {
        if self.accounts().contains_key(account) {
            Self::entry_amount(self.accounts()[account], token_id)
        } else {
            0
        }
    }

    /// A balance map's amount at an edition, zero when absent.
    pub open spec fn entry_amount(bm: BalanceMap, token_id: u64) -> int {
        if bm.m().contains_key(token_id) {
            bm.m()[token_id] as int
        } else {
            0
        }
    }

    /// The sum, across the given account entries, of the amount held of
    /// one edition.
    pub open spec fn sum_held(s: Seq<(u64, BalanceMap)>, token_id: u64) -> int
        decreases s.len(),
    {
        if s.len() == 0 {
            0
        } else {
            Self::sum_held(s.drop_last(), token_id) + Self::entry_amount(s.last().1, token_id)
        }
    }

    /// The year index, keyed by issuance year.
    pub open spec fn years(&self) -> Map<u64, Vec<TokenId>> {
        self.year_mapping.m()
    }

    /// Every edition ever minted or pending took its id from the counter.
    pub open spec fn ids_below_counter(&self) -> bool {
        &&& forall|t: u64| #[trigger] self.minted().contains_key(t) ==> t < self.next_token_id
        &&& forall|i: int|
            0 <= i < self.pending_mint_editions@.len()
                ==> #[trigger] self.pending_mint_editions@[i].pending.detail.id
                    < self.next_token_id
    }

    /// The pending requests are sound: distinct registry references,
    /// distinct reserved ids, no reserved id already minted, nothing
    /// retired before approval, and each entry filed under its own
    /// registry reference.
    pub open spec fn pending_sound(&self) -> bool {
        &&& forall|i: int, j: int|
            0 <= i < j < self.pending_mint_editions@.len()
                ==> self.pending_mint_editions@[i].registry_id@
                    != self.pending_mint_editions@[j].registry_id@
        &&& forall|i: int, j: int|
            0 <= i < j < self.pending_mint_editions@.len()
                ==> self.pending_mint_editions@[i].pending.detail.id
                    != self.pending_mint_editions@[j].pending.detail.id
        &&& forall|i: int|
            0 <= i < self.pending_mint_editions@.len() ==> !self.minted().contains_key(
                (#[trigger] self.pending_mint_editions@[i]).pending.detail.id as u64,
            )
        &&& forall|i: int|
            0 <= i < self.pending_mint_editions@.len()
                ==> ((#[trigger] self.pending_mint_editions@[i]).pending.detail.retired == 0
                    && self.pending_mint_editions@[i].pending.detail.registry_id@
                    == self.pending_mint_editions@[i].registry_id@)
    }

    /// The minted table is sound: each detail filed under its own id, and
    /// supply plus retired never exceeding the amount representable.
    pub open spec fn minted_sound(&self) -> bool {
        &&& self.minted_editions.wf()
        &&& forall|t: u64|
            #[trigger] self.minted().contains_key(t) ==> (self.minted()[t].id as u64 == t
                && self.minted()[t].supply + self.minted()[t].retired <= CarbonUnit::MAX)
        &&& match self.last_minted_token_id {
            Some(id) => self.minted().contains_key(id as u64),
            None => true,
        }
    }

    /// The balance ledger is sound: well-formed maps, every edition a
    /// balance map mentions was minted, and every stored entry is positive
    /// — an entry is removed, never zeroed, once it reaches zero, and a
    /// zero-amount approval credits nothing.
    pub open spec fn balances_sound(&self) -> bool {
        &&& self.balances.wf()
        &&& forall|a: u64|
            self.accounts().contains_key(a) ==> (#[trigger] self.accounts()[a]).wf()
        &&& forall|a: u64, t: u64|
            self.accounts().contains_key(a) && #[trigger] self.accounts()[a].m().contains_key(t)
                ==> self.minted().contains_key(t) && self.accounts()[a].m()[t] > 0
    }

    /// The year index is sound: each listed edition was minted in that
    /// year, and no year lists an edition twice.
    pub open spec fn years_sound(&self) -> bool {
        &&& self.year_mapping.wf()
        &&& forall|y: u64, j: int|
            self.years().contains_key(y) && 0 <= j < self.years()[y]@.len() ==> {
                let t = #[trigger] self.years()[y]@[j];
                self.minted().contains_key(t as u64) && self.minted()[t as u64].year as u64 == y
            }
        &&& forall|y: u64, j: int, k: int|
            self.years().contains_key(y) && 0 <= j < k < self.years()[y]@.len()
                ==> #[trigger] self.years()[y]@[j] != #[trigger] self.years()[y]@[k]
    }

    /// Conservation: for every edition, the balances held across all
    /// accounts sum exactly to the edition's supply plus retired amount —
    /// the amount minted at approval; editions never minted are held by
    /// nobody.
    pub open spec fn conserved(&self) -> bool {
        forall|t: u64|
            #![trigger Self::sum_held(self.balances.kvs(), t)]
            Self::sum_held(self.balances.kvs(), t) == if self.minted().contains_key(t) {
                self.minted()[t].supply + self.minted()[t].retired
            } else {
                0
            }
    }

    /// The ledger invariant, established at creation and preserved by
    /// every operation.
    pub open spec fn wf(&self) -> bool {
        &&& self.ids_below_counter()
        &&& self.pending_sound()
        &&& self.minted_sound()
        &&& self.balances_sound()
        &&& self.years_sound()
        &&& self.conserved()
    }

    /// An empty ledger.
    pub fn new() -> (r: Self)
        ensures
            r.wf(),
            r.next_token_id == 0,
            r.last_minted_token_id.is_none(),
            r.minted() == Map::<u64, Detail>::empty(),
            r.pending() == Map::<Seq<char>, PendingMint>::empty(),
            r.accounts() == Map::<u64, BalanceMap>::empty(),
            r.years() == Map::<u64, Vec<TokenId>>::empty(),
    {
        Tracker {
            next_token_id: 0,
            last_minted_token_id: None,
            minted_editions: Table::new(),
            pending_mint_editions: Vec::new(),
            balances: Table::new(),
            year_mapping: Table::new(),
        }
    }

    /// Hands out the next edition id and advances the counter. Ids are
    /// never reused, and a denied request leaves a permanent gap.
    pub fn take_next_token_id(&mut self) -> (r: TokenId)
        requires
            old(self).next_token_id < TokenId::MAX,
        ensures
            r == old(self).next_token_id,
            final(self).next_token_id == old(self).next_token_id + 1,
            final(self).last_minted_token_id == old(self).last_minted_token_id,
            final(self).minted_editions == old(self).minted_editions,
            final(self).pending_mint_editions == old(self).pending_mint_editions,
            final(self).balances == old(self).balances,
            final(self).year_mapping == old(self).year_mapping,
    {
        let next_token_id = self.next_token_id;
        self.next_token_id = self.next_token_id + 1;
        next_token_id
    }

    /// A registry reference is pending exactly when some entry carries it.
    pub proof fn lemma_pending_contains(s: Seq<PendingEntry>, k: Seq<char>)
        ensures
            Self::pending_map_of(s).contains_key(k) <==> (exists|i: int|
                0 <= i < s.len() && (#[trigger] s[i]).registry_id@ == k),
        decreases s.len(),
    {
        if s.len() > 0 {
            Self::lemma_pending_contains(s.drop_last(), k);
            if s.last().registry_id@ == k {
                assert(s[s.len() - 1].registry_id@ == k);
            } else {
                if exists|i: int| 0 <= i < s.len() && (#[trigger] s[i]).registry_id@ == k {
                    let i = choose|i: int|
                        0 <= i < s.len() && (#[trigger] s[i]).registry_id@ == k;
                    assert(s.drop_last()[i] == s[i]);
                }
            }
        }
    }

    /// Under distinct references, the pending map agrees with any entry.
    pub proof fn lemma_pending_index(s: Seq<PendingEntry>, i: int)
        requires
            forall|p: int, q: int|
                0 <= p < q < s.len() ==> s[p].registry_id@ != s[q].registry_id@,
            0 <= i < s.len(),
        ensures
            Self::pending_map_of(s).contains_key(s[i].registry_id@),
            Self::pending_map_of(s)[s[i].registry_id@] == s[i].pending,
        decreases s.len(),
    {
        if i == s.len() - 1 {
            assert(s[i] == s.last());
        } else {
            assert(s.drop_last()[i] == s[i]);
            Self::lemma_pending_index(s.drop_last(), i);
            assert(s[i].registry_id@ != s.last().registry_id@);
        }
    }

    /// Removing a pending entry removes its reference from the map.
    pub proof fn lemma_pending_remove(s: Seq<PendingEntry>, i: int)
        requires
            forall|p: int, q: int|
                0 <= p < q < s.len() ==> s[p].registry_id@ != s[q].registry_id@,
            0 <= i < s.len(),
        ensures
            Self::pending_map_of(s.remove(i)) =~= Self::pending_map_of(s).remove(
                s[i].registry_id@,
            ),
        decreases s.len(),
    {
        let k = s[i].registry_id@;
        if i == s.len() - 1 {
            assert(s.remove(i) =~= s.drop_last());
            Self::lemma_pending_contains(s.drop_last(), k);
            assert(forall|p: int| 0 <= p < s.len() - 1 ==> s.drop_last()[p] == s[p]);
        } else {
            assert(s.remove(i).drop_last() =~= s.drop_last().remove(i));
            Self::lemma_pending_remove(s.drop_last(), i);
            assert(s.remove(i).last() == s.last());
            assert(k != s.last().registry_id@);
        }
    }

    /// A held sum is never negative.
    pub proof fn lemma_sum_held_nonneg(s: Seq<(u64, BalanceMap)>, t: u64)
        ensures
            Self::sum_held(s, t) >= 0,
        decreases s.len(),
    {
        if s.len() > 0 {
            Self::lemma_sum_held_nonneg(s.drop_last(), t);
        }
    }

    /// Removing an account entry removes its contribution from the sum.
    pub proof fn lemma_sum_held_remove(s: Seq<(u64, BalanceMap)>, i: int, t: u64)
        requires
            0 <= i < s.len(),
        ensures
            Self::sum_held(s.remove(i), t) == Self::sum_held(s, t) - Self::entry_amount(
                s[i].1,
                t,
            ),
        decreases s.len(),
    {
        if i == s.len() - 1 {
            assert(s.remove(i) =~= s.drop_last());
        } else {
            assert(s.remove(i).drop_last() =~= s.drop_last().remove(i));
            Self::lemma_sum_held_remove(s.drop_last(), i, t);
            assert(s.remove(i).last() == s.last());
        }
    }

    /// Appending an account entry adds its contribution to the sum.
    pub proof fn lemma_sum_held_push(s: Seq<(u64, BalanceMap)>, p: (u64, BalanceMap), t: u64)
        ensures
            Self::sum_held(s.push(p), t) == Self::sum_held(s, t) + Self::entry_amount(p.1, t),
    {
        assert(s.push(p).drop_last() =~= s);
        assert(s.push(p).last() == p);
    }

    /// One account's holding never exceeds the sum across all accounts.
    pub proof fn lemma_sum_held_entry(s: Seq<(u64, BalanceMap)>, i: int, t: u64)
        requires
            0 <= i < s.len(),
        ensures
            Self::entry_amount(s[i].1, t) <= Self::sum_held(s, t),
    {
        Self::lemma_sum_held_remove(s, i, t);
        Self::lemma_sum_held_nonneg(s.remove(i), t);
    }

    /// Two distinct accounts' holdings never jointly exceed the sum.
    pub proof fn lemma_sum_held_pair(s: Seq<(u64, BalanceMap)>, i: int, j: int, t: u64)
        requires
            0 <= i < s.len(),
            0 <= j < s.len(),
            i != j,
        ensures
            Self::entry_amount(s[i].1, t) + Self::entry_amount(s[j].1, t) <= Self::sum_held(
                s,
                t,
            ),
    {
        Self::lemma_sum_held_remove(s, i, t);
        let jj: int = if j < i {
            j
        } else {
            j - 1
        };
        assert(s.remove(i)[jj] == s[j]);
        Self::lemma_sum_held_entry(s.remove(i), jj, t);
    }

    /// Ensures the account has a balance map, creating an empty one when
    /// none exists, as every transfer does for its target before anything
    /// else — even when the transfer later fails.
    fn ensure_account_map(&mut self, account: AccountId)
        requires
            old(self).wf(),
        ensures
            final(self).wf(),
            final(self).accounts().contains_key(account),
            old(self).accounts().contains_key(account) ==> *final(self) == *old(self),
            !old(self).accounts().contains_key(account) ==> {
                &&& final(self).balances.kvs() == old(self).balances.kvs().push(
                    (account, final(self).accounts()[account]),
                )
                &&& final(self).accounts() == old(self).accounts().insert(
                    account,
                    final(self).accounts()[account],
                )
                &&& final(self).accounts()[account].m() == Map::<u64, CarbonUnit>::empty()
                &&& final(self).accounts()[account].kvs() == Seq::<(u64, CarbonUnit)>::empty()
                &&& final(self).next_token_id == old(self).next_token_id
                &&& final(self).minted_editions == old(self).minted_editions
                &&& final(self).pending_mint_editions == old(self).pending_mint_editions
                &&& final(self).year_mapping == old(self).year_mapping
                &&& final(self).last_minted_token_id == old(self).last_minted_token_id
            },
    {
        if !self.balances.contains_key(account) {
            let fresh: BalanceMap = Table::new();
            let ghost pre = self.balances.kvs();
            self.balances.insert(account, fresh);
            proof {
                assert forall|t: u64|
                    #![trigger Self::sum_held(self.balances.kvs(), t)]
                    Self::sum_held(self.balances.kvs(), t) == Self::sum_held(pre, t) by {
                    Self::lemma_sum_held_push(pre, (account, fresh), t);
                }
                assert(self.conserved());
                assert(self.minted() == old(self).minted());
                assert(self.years() == old(self).years());
                assert(self.ids_below_counter());
                assert(self.minted_sound());
                assert(self.pending_sound());
                assert(self.years_sound());
                assert(self.accounts() =~= old(self).accounts().insert(account, fresh));
                assert forall|a: u64|
                    self.accounts().contains_key(a) implies (#[trigger] self.accounts()[a]).wf()
                    && (forall|u: u64|
                    #[trigger] self.accounts()[a].m().contains_key(u)
                        ==> self.minted().contains_key(u)) by {
                    if a != account {
                        assert(self.accounts()[a] == old(self).accounts()[a]);
                    }
                }
                assert(self.balances_sound());
            }
        }
    }

    /// Moves `amount` units of one edition from one account's balance map
    /// to another's, removing a drained entry and creating or merging the
    /// receiving entry. The single mutation step shared by every transfer;
    /// it never touches `supply` or `retired`.
    fn move_units(
        &mut self,
        account_id: AccountId,
        target_account_id: AccountId,
        token_id: u64,
        amount: CarbonUnit,
    )
        requires
            old(self).wf(),
            0 < amount,
            old(self).accounts().contains_key(account_id),
            old(self).accounts().contains_key(target_account_id),
            old(self).accounts()[account_id].m().contains_key(token_id),
            amount <= old(self).accounts()[account_id].m()[token_id],
        ensures
            final(self).wf(),
            final(self).minted_editions == old(self).minted_editions,
            final(self).pending_mint_editions == old(self).pending_mint_editions,
            final(self).year_mapping == old(self).year_mapping,
            final(self).next_token_id == old(self).next_token_id,
            final(self).last_minted_token_id == old(self).last_minted_token_id,
            final(self).accounts().dom() =~= old(self).accounts().dom(),
            forall|a: u64|
                a != account_id && a != target_account_id && old(self).accounts().contains_key(a)
                    ==> final(self).accounts()[a] == old(self).accounts()[a],
            account_id != target_account_id ==> {
                &&& final(self).accounts()[account_id].m() == (if old(self).accounts()[account_id].m()[token_id] == amount {
                    old(self).accounts()[account_id].m().remove(token_id)
                } else {
                    old(self).accounts()[account_id].m().insert(
                        token_id,
                        (old(self).accounts()[account_id].m()[token_id] - amount) as CarbonUnit,
                    )
                })
                &&& final(self).accounts()[target_account_id].m() == old(self).accounts()[target_account_id].m().insert(
                    token_id,
                    (Self::entry_amount(old(self).accounts()[target_account_id], token_id)
                        + amount) as CarbonUnit,
                )
            },
            account_id == target_account_id ==> final(self).accounts()[account_id].m() == old(self).accounts()[account_id].m(),
    {
        proof {
            assert(old(self).accounts()[account_id].wf());
            Table::<BalanceMap>::lemma_map_of_contains(self.balances.kvs(), account_id);
            Table::<BalanceMap>::lemma_map_of_contains(self.balances.kvs(), target_account_id);
            if account_id != target_account_id {
                let i_f = choose|i: int|
                    0 <= i < self.balances.kvs().len() && self.balances.kvs()[i].0 == account_id;
                let i_t = choose|i: int|
                    0 <= i < self.balances.kvs().len() && self.balances.kvs()[i].0
                        == target_account_id;
                Table::<BalanceMap>::lemma_map_of_index(self.balances.kvs(), i_f);
                Table::<BalanceMap>::lemma_map_of_index(self.balances.kvs(), i_t);
                Self::lemma_sum_held_pair(self.balances.kvs(), i_f, i_t, token_id);
            }
        }
        let ghost kvs0 = self.balances.kvs();
        let ghost fbm0 = self.accounts()[account_id];
        let ghost tbm0 = self.accounts()[target_account_id];
        let mut fbm: BalanceMap = match self.balances.remove(account_id) {
            Some(b) => b,
            None => unreached(),
        };
        let cur: CarbonUnit = match fbm.get(token_id) {
            Some(v) => *v,
            None => unreached(),
        };
        if cur == amount {
            let _ = fbm.remove(token_id);
        } else {
            fbm.insert(token_id, cur - amount);
        }
        let ghost kvs1 = self.balances.kvs();
        if account_id == target_account_id {
            let tcur: CarbonUnit = match fbm.get(token_id) {
                Some(v) => *v,
                None => 0,
            };
            proof {
                assert(Self::entry_amount(fbm, token_id) == cur - amount);
            }
            fbm.insert(token_id, tcur + amount);
            self.balances.insert(account_id, fbm);
            proof {
                assert(fbm.m() =~= fbm0.m().insert(token_id, cur));
                assert(fbm.m() =~= fbm0.m());
                let i0 = choose|i: int|
                    0 <= i < kvs0.len() && kvs0[i].0 == account_id && kvs1 == kvs0.remove(i);
                assert forall|u: u64|
                    #![trigger Self::sum_held(self.balances.kvs(), u)]
                    Self::sum_held(self.balances.kvs(), u) == Self::sum_held(kvs0, u) by {
                    Self::lemma_sum_held_remove(kvs0, i0, u);
                    Self::lemma_sum_held_push(kvs1, (account_id, fbm), u);
                    Table::<BalanceMap>::lemma_map_of_index(kvs0, i0);
                }
                assert(self.accounts() =~= old(self).accounts().insert(account_id, fbm));
                assert(self.accounts().dom() =~= old(self).accounts().dom());
            }
        } else {
            self.balances.insert(account_id, fbm);
            let ghost kvs2 = self.balances.kvs();
            let mut tbm: BalanceMap = match self.balances.remove(target_account_id) {
                Some(b) => b,
                None => unreached(),
            };
            let ghost kvs3 = self.balances.kvs();
            let tcur: CarbonUnit = match tbm.get(token_id) {
                Some(v) => *v,
                None => 0,
            };
            tbm.insert(token_id, tcur + amount);
            self.balances.insert(target_account_id, tbm);
            proof {
                assert(tbm.m() == tbm0.m().insert(
                    token_id,
                    (Self::entry_amount(tbm0, token_id) + amount) as CarbonUnit,
                ));
                let i0 = choose|i: int|
                    0 <= i < kvs0.len() && kvs0[i].0 == account_id && kvs1 == kvs0.remove(i);
                let i1 = choose|i: int|
                    0 <= i < kvs2.len() && kvs2[i].0 == target_account_id && kvs3 == kvs2.remove(
                        i,
                    );
                assert forall|u: u64|
                    #![trigger Self::sum_held(self.balances.kvs(), u)]
                    Self::sum_held(self.balances.kvs(), u) == Self::sum_held(kvs0, u) by {
                    Self::lemma_sum_held_remove(kvs0, i0, u);
                    Self::lemma_sum_held_push(kvs1, (account_id, fbm), u);
                    Self::lemma_sum_held_remove(kvs2, i1, u);
                    Self::lemma_sum_held_push(kvs3, (target_account_id, tbm), u);
                    Table::<BalanceMap>::lemma_map_of_index(kvs0, i0);
                    Table::<BalanceMap>::lemma_map_of_index(kvs2, i1);
                    assert(Self::entry_amount(fbm, u) + Self::entry_amount(tbm, u)
                        == Self::entry_amount(fbm0, u) + Self::entry_amount(tbm0, u));
                }
                assert(self.accounts() =~= old(self).accounts().insert(account_id, fbm).insert(
                    target_account_id,
                    tbm,
                ));
                assert(self.accounts().dom() =~= old(self).accounts().dom());
            }
        }
        proof {
            assert(self.minted() == old(self).minted());
            assert(self.years() == old(self).years());
            assert(self.ids_below_counter());
            assert(self.pending_sound());
            assert(self.minted_sound());
            assert(self.years_sound());
            assert forall|a: u64|
                self.accounts().contains_key(a) implies (#[trigger] self.accounts()[a]).wf()
                && (forall|u: u64|
                #[trigger] self.accounts()[a].m().contains_key(u)
                    ==> self.minted().contains_key(u) && self.accounts()[a].m()[u] > 0) by {
                if a != account_id && a != target_account_id {
                    assert(self.accounts()[a] == old(self).accounts()[a]);
                } else {
                    assert forall|u: u64|
                        #[trigger] self.accounts()[a].m().contains_key(u) implies self.minted(
                    ).contains_key(u) && self.accounts()[a].m()[u] > 0 by {
                        if u != token_id {
                            assert(old(self).accounts()[a].m().contains_key(u));
                            assert(self.accounts()[a].m()[u] == old(self).accounts()[a].m()[u]);
                        } else {
                            assert(old(self).accounts()[account_id].m().contains_key(u));
                            if account_id == target_account_id {
                                assert(self.accounts()[a].m()[u] == old(self).accounts()[account_id].m()[u]);
                            } else if a == account_id {
                                assert(old(self).accounts()[account_id].m()[token_id] != amount);
                            }
                        }
                    }
                }
            }
            assert(self.balances_sound());
            assert(self.conserved());
        }
    }

    /// Every transfer first gives the target a balance map: the post state
    /// equals the pre state except that a missing target map was created
    /// empty. This holds even when the transfer then fails.
    pub open spec fn created_target_map(pre: Tracker, post: Tracker, target: u64) -> bool {
        &&& post.accounts().contains_key(target)
        &&& pre.accounts().contains_key(target) ==> post == pre
        &&& !pre.accounts().contains_key(target) ==> {
            &&& post.accounts() == pre.accounts().insert(target, post.accounts()[target])
            &&& post.accounts()[target].kvs() == Seq::<(u64, CarbonUnit)>::empty()
            &&& post.minted_editions == pre.minted_editions
            &&& post.pending_mint_editions == pre.pending_mint_editions
            &&& post.year_mapping == pre.year_mapping
            &&& post.next_token_id == pre.next_token_id
            &&& post.last_minted_token_id == pre.last_minted_token_id
        }
    }

    /// The state change of a successful single-edition transfer: the payer
    /// entry is decremented — removed when drained —, the target entry is
    /// created or merged by addition, a missing target map was created
    /// first, and nothing else moves. A self-transfer leaves the map as it
    /// was.
    pub open spec fn transferred_by_id(
        pre: Tracker,
        post: Tracker,
        from: u64,
        to: u64,
        t: u64,
        amount: CarbonUnit,
    ) -> bool {
        &&& post.minted_editions == pre.minted_editions
        &&& post.pending_mint_editions == pre.pending_mint_editions
        &&& post.year_mapping == pre.year_mapping
        &&& post.next_token_id == pre.next_token_id
        &&& post.last_minted_token_id == pre.last_minted_token_id
        &&& post.accounts().dom() =~= pre.accounts().dom().insert(to)
        &&& forall|a: u64|
            a != from && a != to && pre.accounts().contains_key(a) ==> post.accounts()[a] == pre.accounts()[a]
        &&& from != to ==> {
            &&& post.accounts()[from].m() == (if pre.accounts()[from].m()[t] == amount {
                pre.accounts()[from].m().remove(t)
            } else {
                pre.accounts()[from].m().insert(
                    t,
                    (pre.accounts()[from].m()[t] - amount) as CarbonUnit,
                )
            })
            &&& post.accounts()[to].m() == (if pre.accounts().contains_key(to) {
                pre.accounts()[to].m()
            } else {
                Map::<u64, CarbonUnit>::empty()
            }).insert(t, (pre.held(to, t) + amount) as CarbonUnit)
        }
        &&& from == to ==> post.accounts()[from].m() == pre.accounts()[from].m()
    }

    /// Transfers `token_amount` units of one edition. Fails with
    /// `CannotTransferZeroCarbonUnit` when the amount is zero (nothing
    /// changes), with `TokenNotFound` when the edition was never minted,
    /// and with `InsufficientCarbonUnit` when the paying account has no
    /// balance map or holds less than the amount; in those three cases the
    /// target's empty balance map, created up front, is the only change.
    /// On success the units move and `supply`/`retired` stay untouched.
    pub fn transfer_token_by_id(
        &mut self,
        account_id: AccountId,
        target_account_id: AccountId,
        token_id: TokenId,
        token_amount: CarbonUnit,
    ) -> (r: Result<TokenEdition, Message>)
        requires
            old(self).wf(),
        ensures
            final(self).wf(),
            token_amount == 0 ==> r == Err::<TokenEdition, Message>(
                Message::CannotTransferZeroCarbonUnit,
            ) && *final(self) == *old(self),
            token_amount != 0 ==> {
                let has_from = old(self).accounts().contains_key(account_id) || account_id
                    == target_account_id;
                let t = token_id as u64;
                &&& !has_from ==> r == Err::<TokenEdition, Message>(
                    Message::InsufficientCarbonUnit,
                ) && Self::created_target_map(*old(self), *final(self), target_account_id)
                &&& has_from && !old(self).minted().contains_key(t) ==> r == Err::<
                    TokenEdition,
                    Message,
                >(Message::TokenNotFound) && Self::created_target_map(
                    *old(self),
                    *final(self),
                    target_account_id,
                )
                &&& has_from && old(self).minted().contains_key(t) && old(self).held(
                    account_id,
                    t,
                ) < token_amount ==> r == Err::<TokenEdition, Message>(
                    Message::InsufficientCarbonUnit,
                ) && Self::created_target_map(*old(self), *final(self), target_account_id)
                &&& has_from && old(self).minted().contains_key(t) && old(self).held(
                    account_id,
                    t,
                ) >= token_amount ==> r == Ok::<TokenEdition, Message>(
                    (TokenEdition { id: token_id, amount: token_amount }),
                ) && Self::transferred_by_id(
                    *old(self),
                    *final(self),
                    account_id,
                    target_account_id,
                    t,
                    token_amount,
                )
            },
    {
        if token_amount == 0 {
            return Err(Message::CannotTransferZeroCarbonUnit);
        }
        self.ensure_account_map(target_account_id);
        if !self.balances.contains_key(account_id) {
            return Err(Message::InsufficientCarbonUnit);
        }
        if !self.minted_editions.contains_key(token_id as u64) {
            return Err(Message::TokenNotFound);
        }
        proof {
            assert(self.accounts()[account_id].wf());
        }
        let balance: CarbonUnit = match self.balances.get(account_id) {
            Some(bm) => match bm.get(token_id as u64) {
                Some(v) => *v,
                None => 0,
            },
            None => unreached(),
        };
        if balance < token_amount {
            return Err(Message::InsufficientCarbonUnit);
        }
        proof {
            if account_id != target_account_id || old(self).accounts().contains_key(account_id) {
                assert(self.accounts()[account_id] == old(self).accounts()[account_id]);
            }
        }
        self.move_units(account_id, target_account_id, token_id as u64, token_amount);
        Ok(TokenEdition { id: token_id, amount: token_amount })
    }

    /// Permanently retires units: first transfers them to the reserved
    /// blackhole account — propagating any transfer error unchanged, with
    /// the same state effects — then moves the amount from the edition's
    /// `supply` to its `retired` tally. `BlockchainCorrupted` reports a
    /// supply smaller than the amount just transferred; the transfer has
    /// already committed when it is raised. Under the ledger invariant the
    /// sum of `supply` and `retired` never changes here.
    pub fn retire_token_id(
        &mut self,
        account_id: AccountId,
        token_id: TokenId,
        retirement_amount: CarbonUnit,
    ) -> (r: Result<(), Message>)
        requires
            old(self).wf(),
        ensures
            final(self).wf(),
            retirement_amount == 0 ==> r == Err::<(), Message>(
                Message::CannotTransferZeroCarbonUnit,
            ) && *final(self) == *old(self),
            retirement_amount != 0 ==> {
                let blackhole = crate::blackhole_address();
                let has_from = old(self).accounts().contains_key(account_id) || account_id
                    == blackhole;
                let t = token_id as u64;
                &&& !has_from ==> r == Err::<(), Message>(Message::InsufficientCarbonUnit)
                    && Self::created_target_map(*old(self), *final(self), blackhole)
                &&& has_from && !old(self).minted().contains_key(t) ==> r == Err::<(), Message>(
                    Message::TokenNotFound,
                ) && Self::created_target_map(*old(self), *final(self), blackhole)
                &&& has_from && old(self).minted().contains_key(t) && old(self).held(
                    account_id,
                    t,
                ) < retirement_amount ==> r == Err::<(), Message>(Message::InsufficientCarbonUnit)
                    && Self::created_target_map(*old(self), *final(self), blackhole)
                &&& has_from && old(self).minted().contains_key(t) && old(self).held(
                    account_id,
                    t,
                ) >= retirement_amount ==> {
                    &&& old(self).minted()[t].supply < retirement_amount ==> r == Err::<
                        (),
                        Message,
                    >(Message::BlockchainCorrupted) && Self::transferred_by_id(
                        *old(self),
                        *final(self),
                        account_id,
                        blackhole,
                        t,
                        retirement_amount,
                    )
                    &&& old(self).minted()[t].supply >= retirement_amount ==> r == Ok::<
                        (),
                        Message,
                    >(()) && Self::transferred_by_id(
                        *old(self),
                        (Tracker { minted_editions: old(self).minted_editions, ..*final(self) }),
                        account_id,
                        blackhole,
                        t,
                        retirement_amount,
                    ) && final(self).minted() == old(self).minted().insert(
                        t,
                        (Detail {
                            supply: (old(self).minted()[t].supply - retirement_amount) as CarbonUnit,
                            retired: (old(self).minted()[t].retired
                                + retirement_amount) as CarbonUnit,
                            ..old(self).minted()[t]
                        }),
                    )
                }
            },
    {
        let transferred = self.transfer_token_by_id(
            account_id,
            get_blackhole_address(),
            token_id,
            retirement_amount,
        );
        match transferred {
            Err(e) => {
                return Err(e);
            },
            Ok(_) => {},
        }
        let detail: Detail = match self.minted_editions.get(token_id as u64) {
            Some(d) => d.clone(),
            None => unreached(),
        };
        if detail.supply < retirement_amount {
            return Err(Message::BlockchainCorrupted);
        }
        let ghost mid = *self;
        let updated = Detail {
            supply: detail.supply - retirement_amount,
            retired: detail.retired + retirement_amount,
            ..detail
        };
        self.minted_editions.insert(token_id as u64, updated);
        proof {
            let t = token_id as u64;
            assert(self.minted() =~= mid.minted().insert(t, updated));
            assert(self.minted() =~= old(self).minted().insert(t, updated));
            assert(self.accounts() == mid.accounts());
            assert(self.years() == mid.years());
            assert(self.minted().dom() =~= mid.minted().dom());
            assert forall|u: u64| #[trigger] self.minted().contains_key(u) implies u
                < self.next_token_id && (self.minted()[u].id as u64 == u && self.minted()[u].supply
                + self.minted()[u].retired <= CarbonUnit::MAX) by {
                if u != t {
                    assert(mid.minted().contains_key(u));
                }
            }
            assert(self.ids_below_counter());
            assert(self.pending_sound());
            assert(self.minted_sound());
            assert(self.balances_sound());
            assert forall|y: u64, j: int|
                self.years().contains_key(y) && 0 <= j < self.years()[y]@.len() implies {
                    let u = #[trigger] self.years()[y]@[j];
                    self.minted().contains_key(u as u64) && self.minted()[u as u64].year as u64
                        == y
                } by {
                assert(mid.years().contains_key(y));
                let u = mid.years()[y]@[j];
                assert(mid.minted().contains_key(u as u64));
                assert(mid.minted()[u as u64].year as u64 == y);
                if u as u64 == t {
                    assert(self.minted()[t].year == mid.minted()[t].year);
                }
            }
            assert(self.years_sound());
            assert forall|u: u64|
                #![trigger Self::sum_held(self.balances.kvs(), u)]
                Self::sum_held(self.balances.kvs(), u) == (if self.minted().contains_key(u) {
                    self.minted()[u].supply + self.minted()[u].retired
                } else {
                    0
                }) by {
                assert(Self::sum_held(mid.balances.kvs(), u) == (if mid.minted().contains_key(u) {
                    mid.minted()[u].supply + mid.minted()[u].retired
                } else {
                    0
                }));
                assert(self.balances.kvs() == mid.balances.kvs());
                if u != t {
                    assert(self.minted().contains_key(u) ==> self.minted()[u] == mid.minted()[u]);
                }
            }
            assert(self.conserved());
        }
        Ok(())
    }

    /// The sum of the amounts in a balance map's entries.
    pub open spec fn sum_values(s: Seq<(u64, CarbonUnit)>) -> int
        decreases s.len(),
    {
        if s.len() == 0 {
            0
        } else {
            Self::sum_values(s.drop_last()) + s.last().1
        }
    }

    /// The total an account holds across all editions; zero without a map.
    pub open spec fn account_total(&self, account: AccountId) -> int {
        if self.accounts().contains_key(account) {
            Self::sum_values(self.accounts()[account].kvs())
        } else {
            0
        }
    }

    /// A sum of entry amounts is zero exactly when every entry is zero.
    pub proof fn lemma_sum_values_zero(s: Seq<(u64, CarbonUnit)>)
        ensures
            Self::sum_values(s) >= 0,
            (Self::sum_values(s) == 0) <==> (forall|j: int| 0 <= j < s.len() ==> (#[trigger] s[j]).1 == 0),
        decreases s.len(),
    {
        if s.len() > 0 {
            Self::lemma_sum_values_zero(s.drop_last());
            if Self::sum_values(s) == 0 {
                assert forall|j: int| 0 <= j < s.len() implies (#[trigger] s[j]).1 == 0 by {
                    if j < s.len() - 1 {
                        assert(s.drop_last()[j] == s[j]);
                    }
                }
            }
            if forall|j: int| 0 <= j < s.len() ==> (#[trigger] s[j]).1 == 0 {
                assert forall|j: int| 0 <= j < s.len() - 1 implies (#[trigger] s.drop_last()[j]).1
                    == 0 by {
                    assert(s.drop_last()[j] == s[j]);
                }
            }
        }
    }

    /// The map after crediting, entry by entry, every listed amount.
    pub open spec fn merge_credits(m: Map<u64, CarbonUnit>, s: Seq<(u64, CarbonUnit)>) -> Map<
        u64,
        CarbonUnit,
    >
        decreases s.len(),
    {
        if s.len() == 0 {
            m
        } else {
            let prev = Self::merge_credits(m, s.drop_last());
            let t = s.last().0;
            let cur: int = if prev.contains_key(t) {
                prev[t] as int
            } else {
                0
            };
            prev.insert(t, (cur + s.last().1) as CarbonUnit)
        }
    }

    /// The map after removing, entry by entry, every listed key.
    pub open spec fn drop_keys(m: Map<u64, CarbonUnit>, s: Seq<(u64, CarbonUnit)>) -> Map<
        u64,
        CarbonUnit,
    >
        decreases s.len(),
    {
        if s.len() == 0 {
            m
        } else {
            Self::drop_keys(m, s.drop_last()).remove(s.last().0)
        }
    }

    /// Dropping keys keeps exactly the unlisted ones, with their values.
    pub proof fn lemma_drop_keys(m: Map<u64, CarbonUnit>, s: Seq<(u64, CarbonUnit)>, k: u64)
        ensures
            Self::drop_keys(m, s).contains_key(k) <==> (m.contains_key(k) && !(exists|i: int|
                0 <= i < s.len() && (#[trigger] s[i]).0 == k)),
            Self::drop_keys(m, s).contains_key(k) ==> Self::drop_keys(m, s)[k] == m[k],
        decreases s.len(),
    {
        if s.len() > 0 {
            Self::lemma_drop_keys(m, s.drop_last(), k);
            if s.last().0 != k {
                if exists|i: int| 0 <= i < s.len() && (#[trigger] s[i]).0 == k {
                    let i = choose|i: int| 0 <= i < s.len() && (#[trigger] s[i]).0 == k;
                    assert(s.drop_last()[i] == s[i]);
                }
                if exists|i: int| 0 <= i < s.len() - 1 && (#[trigger] s.drop_last()[i]).0 == k {
                    let i = choose|i: int|
                        0 <= i < s.len() - 1 && (#[trigger] s.drop_last()[i]).0 == k;
                    assert(s[i] == s.drop_last()[i]);
                }
            } else {
                assert(s[s.len() - 1].0 == k);
            }
        }
    }

    /// Moves every (edition, amount) entry of the paying account's balance
    /// map to the target, merging into existing target entries by addition
    /// and leaving the payer an empty map. Fails with
    /// `CannotTransferZeroCarbonUnit`, changing nothing, exactly when the
    /// payer's total balance is zero — including when it has no map at
    /// all. Returns the moved pairs in the payer's map order.
    pub fn transfer_token_all(
        &mut self,
        account_id: AccountId,
        target_account_id: AccountId,
    ) -> (r: Result<TokenEditions, Message>)
        requires
            old(self).wf(),
        ensures
            final(self).wf(),
            old(self).account_total(account_id) == 0 ==> r == Err::<TokenEditions, Message>(
                Message::CannotTransferZeroCarbonUnit,
            ) && *final(self) == *old(self),
            old(self).account_total(account_id) != 0 ==> {
                let kvs0 = old(self).accounts()[account_id].kvs();
                &&& r matches Ok(details) && details@.len() == kvs0.len() && (forall|i: int|
                    0 <= i < kvs0.len() ==> #[trigger] details@[i] == (TokenEdition {
                        id: kvs0[i].0 as TokenId,
                        amount: kvs0[i].1,
                    }) && details@[i].amount > 0)
                &&& final(self).minted_editions == old(self).minted_editions
                &&& final(self).pending_mint_editions == old(self).pending_mint_editions
                &&& final(self).year_mapping == old(self).year_mapping
                &&& final(self).next_token_id == old(self).next_token_id
                &&& final(self).last_minted_token_id == old(self).last_minted_token_id
                &&& final(self).accounts().dom() =~= old(self).accounts().dom().insert(
                    target_account_id,
                )
                &&& forall|a: u64|
                    a != account_id && a != target_account_id && old(self).accounts().contains_key(a) ==> final(self).accounts()[a] == old(self).accounts()[a]
                &&& account_id != target_account_id ==> {
                    &&& final(self).accounts()[account_id].m() =~= Map::<u64, CarbonUnit>::empty()
                    &&& final(self).accounts()[target_account_id].m() == Self::merge_credits(
                        (if old(self).accounts().contains_key(target_account_id) {
                            old(self).accounts()[target_account_id].m()
                        } else {
                            Map::<u64, CarbonUnit>::empty()
                        }),
                        kvs0,
                    )
                }
                &&& account_id == target_account_id ==> final(self).accounts()[account_id].m()
                    == old(self).accounts()[account_id].m()
            },
    {
        let nonzero: bool = match self.balances.get(account_id) {
            None => false,
            Some(bm) => {
                proof {
                    Self::lemma_sum_values_zero(bm.kvs());
                }
                let mut j: usize = 0;
                let mut found: bool = false;
                while j < bm.entries.len()
                    invariant
                        j <= bm.kvs().len(),
                        found <==> (exists|p: int| 0 <= p < j && (#[trigger] bm.kvs()[p]).1 != 0),
                    decreases bm.kvs().len() - j,
                {
                    if bm.entries[j].1 != 0 {
                        found = true;
                    }
                    j = j + 1;
                }
                found
            },
        };
        if !nonzero {
            proof {
                if old(self).accounts().contains_key(account_id) {
                    Self::lemma_sum_values_zero(old(self).accounts()[account_id].kvs());
                }
            }
            return Err(Message::CannotTransferZeroCarbonUnit);
        }
        proof {
            Self::lemma_sum_values_zero(old(self).accounts()[account_id].kvs());
        }
        self.ensure_account_map(target_account_id);
        let ghost kvs0 = old(self).accounts()[account_id].kvs();
        let ghost from_m0 = old(self).accounts()[account_id].m();
        let ghost to_m0 = self.accounts()[target_account_id].m();
        let mut details: TokenEditions = Vec::new();
        let n: usize = match self.balances.get(account_id) {
            Some(bm) => {
                let mut j: usize = 0;
                while j < bm.entries.len()
                    invariant
                        self.wf(),
                        bm == self.accounts()[account_id],
                        bm.kvs() == kvs0,
                        self.accounts().contains_key(account_id),
                        self.minted() == old(self).minted(),
                        j <= kvs0.len(),
                        details@.len() == j,
                        forall|p: int|
                            0 <= p < j ==> #[trigger] details@[p] == (TokenEdition {
                                id: kvs0[p].0 as TokenId,
                                amount: kvs0[p].1,
                            }),
                    decreases kvs0.len() - j,
                {
                    proof {
                        Table::<CarbonUnit>::lemma_map_of_index(kvs0, j as int);
                        assert(self.accounts()[account_id].m().contains_key(kvs0[j as int].0));
                        assert(self.minted().contains_key(kvs0[j as int].0));
                        assert(self.minted()[kvs0[j as int].0].id as u64 == kvs0[j as int].0);
                    }
                    let key: u64 = bm.entries[j].0;
                    let amount: CarbonUnit = bm.entries[j].1;
                    details.push(TokenEdition { id: key as TokenId, amount: amount });
                    j = j + 1;
                }
                bm.entries.len()
            },
            None => unreached(),
        };
        let mut j: usize = 0;
        while j < n
            invariant
                self.wf(),
                n == kvs0.len(),
                j <= n,
                details@.len() == n,
                forall|p: int|
                    0 <= p < n ==> #[trigger] details@[p] == (TokenEdition {
                        id: kvs0[p].0 as TokenId,
                        amount: kvs0[p].1,
                    }),
                forall|p: int, q: int| 0 <= p < q < kvs0.len() ==> kvs0[p].0 != kvs0[q].0,
                from_m0 == Table::<CarbonUnit>::map_of(kvs0),
                self.accounts().contains_key(account_id),
                self.accounts().contains_key(target_account_id),
                self.minted_editions == old(self).minted_editions,
                self.pending_mint_editions == old(self).pending_mint_editions,
                self.year_mapping == old(self).year_mapping,
                self.next_token_id == old(self).next_token_id,
                self.last_minted_token_id == old(self).last_minted_token_id,
                self.accounts().dom() =~= old(self).accounts().dom().insert(target_account_id),
                forall|a: u64|
                    a != account_id && a != target_account_id && old(self).accounts().contains_key(a) ==> self.accounts()[a] == old(self).accounts()[a],
                account_id != target_account_id ==> self.accounts()[account_id].m()
                    =~= Self::drop_keys(from_m0, kvs0.take(j as int)),
                account_id != target_account_id ==> self.accounts()[target_account_id].m()
                    =~= Self::merge_credits(to_m0, kvs0.take(j as int)),
                account_id == target_account_id ==> self.accounts()[account_id].m() == from_m0,
            decreases n - j,
        {
            let e: TokenEdition = details[j];
            let ghost t = kvs0[j as int].0;
            proof {
                assert(kvs0.take(j as int + 1).drop_last() =~= kvs0.take(j as int));
                assert(kvs0.take(j as int + 1).last() == kvs0[j as int]);
                assert(from_m0 == Table::<CarbonUnit>::map_of(kvs0));
                Table::<CarbonUnit>::lemma_map_of_index(kvs0, j as int);
                if account_id != target_account_id {
                    Self::lemma_drop_keys(from_m0, kvs0.take(j as int), t);
                    assert(!(exists|i: int|
                        0 <= i < j && (#[trigger] kvs0.take(j as int)[i]).0 == t));
                    assert(self.accounts()[account_id].m().contains_key(t));
                    assert(self.accounts()[account_id].m()[t] == from_m0[t]);
                }
                assert(from_m0[t] == kvs0[j as int].1);
            }
            self.move_units(account_id, target_account_id, e.id as u64, e.amount);
            proof {
                if account_id != target_account_id {
                    assert(self.accounts()[account_id].m() =~= Self::drop_keys(
                        from_m0,
                        kvs0.take(j as int + 1),
                    ));
                    assert(self.accounts()[target_account_id].m() =~= Self::merge_credits(
                        to_m0,
                        kvs0.take(j as int + 1),
                    ));
                }
            }
            j = j + 1;
        }
        proof {
            assert(kvs0.take(n as int) =~= kvs0);
            assert forall|p: int| 0 <= p < kvs0.len() implies kvs0[p].1 > 0 by {
                Table::<CarbonUnit>::lemma_map_of_index(kvs0, p);
                assert(old(self).accounts()[account_id].m().contains_key(kvs0[p].0));
            }
            if account_id != target_account_id {
                assert forall|k: u64| !(#[trigger] Self::drop_keys(
                    from_m0,
                    kvs0,
                ).contains_key(k)) by {
                    Self::lemma_drop_keys(from_m0, kvs0, k);
                    if from_m0.contains_key(k) {
                        Table::<CarbonUnit>::lemma_map_of_contains(kvs0, k);
                    }
                }
                assert(self.accounts()[account_id].m() =~= Map::<u64, CarbonUnit>::empty());
            }
        }
        Ok(details)
    }

    /// An account's aggregate balance across one year's editions, in index
    /// order; an edition it holds no entry for contributes zero.
    pub open spec fn year_balance(list: Seq<TokenId>, bm: Map<u64, CarbonUnit>) -> int
        decreases list.len(),
    {
        if list.len() == 0 {
            0
        } else {
            Self::year_balance(list.drop_last(), bm) + (if bm.contains_key(
                list.last() as u64,
            ) {
                bm[list.last() as u64] as int
            } else {
                0
            })
        }
    }

    /// A year aggregate is never negative.
    pub proof fn lemma_year_balance_nonneg(list: Seq<TokenId>, bm: Map<u64, CarbonUnit>)
        ensures
            Self::year_balance(list, bm) >= 0,
        decreases list.len(),
    {
        if list.len() > 0 {
            Self::lemma_year_balance_nonneg(list.drop_last(), bm);
        }
    }

    /// A prefix of the year walk never sums to more than the whole.
    pub proof fn lemma_year_balance_prefix(list: Seq<TokenId>, bm: Map<u64, CarbonUnit>, j: int)
        requires
            0 <= j <= list.len(),
        ensures
            Self::year_balance(list.take(j), bm) <= Self::year_balance(list, bm),
            Self::year_balance(list.take(j), bm) >= 0,
        decreases list.len() - j,
    {
        Self::lemma_year_balance_nonneg(list.take(j), bm);
        if j == list.len() {
            assert(list.take(j) =~= list);
        } else {
            Self::lemma_year_balance_prefix(list, bm, j + 1);
            assert(list.take(j + 1).drop_last() =~= list.take(j));
            assert(list.take(j + 1).last() == list[j]);
        }
    }

    /// The drain walk of a year transfer: editions are visited in index
    /// order and drained until the requested amount is satisfied. In the
    /// branch that drains an entry whole, the amount still owed is
    /// decremented only after the entry was already zeroed, so it does not
    /// shrink there and the walk goes on to drain later editions too.
    pub open spec fn year_walk(
        list: Seq<TokenId>,
        bal: Map<u64, CarbonUnit>,
        remaining: CarbonUnit,
    ) -> Seq<TokenEdition>
        decreases list.len(),
    {
        if list.len() == 0 || remaining == 0 {
            Seq::empty()
        } else {
            let tid = list[0];
            let t = tid as u64;
            if bal.contains_key(t) {
                let b = bal[t];
                if b < remaining {
                    seq![TokenEdition { id: tid, amount: b }] + Self::year_walk(
                        list.skip(1),
                        bal.insert(t, 0),
                        remaining,
                    )
                } else {
                    seq![TokenEdition { id: tid, amount: remaining }] + Self::year_walk(
                        list.skip(1),
                        bal.insert(t, (b - remaining) as CarbonUnit),
                        0,
                    )
                }
            } else {
                Self::year_walk(list.skip(1), bal, remaining)
            }
        }
    }

    /// The listed (edition, amount) pairs of a transfer acknowledgment.
    pub open spec fn pairs_of(details: Seq<TokenEdition>) -> Seq<(u64, CarbonUnit)> {
        details.map(|i: int, e: TokenEdition| (e.id as u64, e.amount))
    }

    /// The map after debiting, entry by entry, every listed amount; an
    /// entry drained whole is removed.
    pub open spec fn apply_debits(m: Map<u64, CarbonUnit>, s: Seq<(u64, CarbonUnit)>) -> Map<
        u64,
        CarbonUnit,
    >
        decreases s.len(),
    {
        if s.len() == 0 {
            m
        } else {
            let prev = Self::apply_debits(m, s.drop_last());
            let t = s.last().0;
            if prev.contains_key(t) && prev[t] == s.last().1 {
                prev.remove(t)
            } else if prev.contains_key(t) {
                prev.insert(t, (prev[t] - s.last().1) as CarbonUnit)
            } else {
                prev
            }
        }
    }

    /// Transfers `token_amount` units drawn from the year's editions in
    /// index order, draining each of the payer's entries in turn and
    /// crediting the target per edition drained. Fails with
    /// `CannotTransferZeroCarbonUnit` when the amount is zero (nothing
    /// changes), with `TokenNotFound` whenever the year has no editions,
    /// and otherwise with `InsufficientCarbonUnit` when the payer has no
    /// balance map or holds less than the amount across the year; on those
    /// errors the target's empty balance map, created up front, is the
    /// only change.
    /// The successful walk and its result are exactly [`Tracker::year_walk`],
    /// drain branch and all.
    pub fn transfer_token_by_year(
        &mut self,
        account_id: AccountId,
        target_account_id: AccountId,
        token_year: Year,
        token_amount: CarbonUnit,
    ) -> (r: Result<TokenEditions, Message>)
        requires
            old(self).wf(),
            token_amount != 0 && old(self).accounts().contains_key(account_id) && old(
                self,
            ).years().contains_key(token_year as u64) ==> Self::year_balance(
                old(self).years()[token_year as u64]@,
                old(self).accounts()[account_id].m(),
            ) <= CarbonUnit::MAX,
        ensures
            final(self).wf(),
            token_amount == 0 ==> r == Err::<TokenEditions, Message>(
                Message::CannotTransferZeroCarbonUnit,
            ) && *final(self) == *old(self),
            token_amount != 0 ==> {
                let y = token_year as u64;
                let has_from = old(self).accounts().contains_key(account_id) || account_id
                    == target_account_id;
                let fbal0 = if old(self).accounts().contains_key(account_id) {
                    old(self).accounts()[account_id].m()
                } else {
                    Map::<u64, CarbonUnit>::empty()
                };
                &&& !old(self).years().contains_key(y) ==> r == Err::<TokenEditions, Message>(
                    Message::TokenNotFound,
                ) && Self::created_target_map(*old(self), *final(self), target_account_id)
                &&& old(self).years().contains_key(y) && !has_from ==> r == Err::<
                    TokenEditions,
                    Message,
                >(Message::InsufficientCarbonUnit) && Self::created_target_map(
                    *old(self),
                    *final(self),
                    target_account_id,
                )
                &&& has_from && old(self).years().contains_key(y) && Self::year_balance(
                    old(self).years()[y]@,
                    fbal0,
                ) < token_amount ==> r == Err::<TokenEditions, Message>(
                    Message::InsufficientCarbonUnit,
                ) && Self::created_target_map(*old(self), *final(self), target_account_id)
                &&& has_from && old(self).years().contains_key(y) && Self::year_balance(
                    old(self).years()[y]@,
                    fbal0,
                ) >= token_amount ==> {
                    let details = Self::year_walk(old(self).years()[y]@, fbal0, token_amount);
                    &&& r matches Ok(moved) && moved@ == details
                    &&& final(self).minted_editions == old(self).minted_editions
                    &&& final(self).pending_mint_editions == old(self).pending_mint_editions
                    &&& final(self).year_mapping == old(self).year_mapping
                    &&& final(self).next_token_id == old(self).next_token_id
                    &&& final(self).last_minted_token_id == old(self).last_minted_token_id
                    &&& final(self).accounts().dom() =~= old(self).accounts().dom().insert(
                        target_account_id,
                    )
                    &&& forall|a: u64|
                        a != account_id && a != target_account_id && old(self).accounts().contains_key(a) ==> final(self).accounts()[a] == old(self).accounts()[a]
                    &&& account_id != target_account_id ==> {
                        &&& final(self).accounts()[account_id].m() == Self::apply_debits(
                            fbal0,
                            Self::pairs_of(details),
                        )
                        &&& final(self).accounts()[target_account_id].m() == Self::merge_credits(
                            (if old(self).accounts().contains_key(target_account_id) {
                                old(self).accounts()[target_account_id].m()
                            } else {
                                Map::<u64, CarbonUnit>::empty()
                            }),
                            Self::pairs_of(details),
                        )
                    }
                    &&& account_id == target_account_id ==> final(self).accounts()[account_id].m()
                        == fbal0
                }
            },
    {
        if token_amount == 0 {
            return Err(Message::CannotTransferZeroCarbonUnit);
        }
        self.ensure_account_map(target_account_id);
        if !self.year_mapping.contains_key(token_year as u64) {
            return Err(Message::TokenNotFound);
        }
        if !self.balances.contains_key(account_id) {
            return Err(Message::InsufficientCarbonUnit);
        }
        let year_list: Vec<TokenId> = match self.year_mapping.get(token_year as u64) {
            Some(v) => v.clone(),
            None => unreached(),
        };
        let ghost list0 = old(self).years()[token_year as u64]@;
        let ghost fbal0 = self.accounts()[account_id].m();
        proof {
            assert(year_list@ =~= list0);
            assert(Self::year_balance(list0, fbal0) <= CarbonUnit::MAX) by {
                if old(self).accounts().contains_key(account_id) {
                    assert(fbal0 == old(self).accounts()[account_id].m());
                } else {
                    assert(fbal0 =~= Map::<u64, CarbonUnit>::empty());
                    Self::lemma_year_balance_agree_empty(list0, fbal0);
                }
            }
        }
        let mut aggregate: CarbonUnit = 0;
        let mut j: usize = 0;
        while j < year_list.len()
            invariant
                self.wf(),
                self.accounts().contains_key(account_id),
                fbal0 == self.accounts()[account_id].m(),
                year_list@ == list0,
                j <= list0.len(),
                aggregate == Self::year_balance(list0.take(j as int), fbal0),
                Self::year_balance(list0, fbal0) <= CarbonUnit::MAX,
            decreases list0.len() - j,
        {
            proof {
                Self::lemma_year_balance_prefix(list0, fbal0, j as int + 1);
                assert(list0.take(j as int + 1).drop_last() =~= list0.take(j as int));
                assert(list0.take(j as int + 1).last() == list0[j as int]);
            }
            let t64: u64 = year_list[j] as u64;
            let add: CarbonUnit = match self.balances.get(account_id) {
                Some(bm) => match bm.get(t64) {
                    Some(v) => *v,
                    None => 0,
                },
                None => unreached(),
            };
            aggregate = aggregate + add;
            j = j + 1;
        }
        proof {
            assert(list0.take(list0.len() as int) =~= list0);
        }
        if aggregate < token_amount {
            return Err(Message::InsufficientCarbonUnit);
        }
        let ghost to_m0 = self.accounts()[target_account_id].m();
        let ghost walk_full = Self::year_walk(list0, fbal0, token_amount);
        let mut details: TokenEditions = Vec::new();
        let mut remaining: CarbonUnit = token_amount;
        let ghost mut walk_bal = fbal0;
        let mut i: usize = 0;
        while i < year_list.len() && remaining != 0
            invariant
                self.wf(),
                year_list@ == list0,
                i <= list0.len(),
                forall|p: int, q: int| 0 <= p < q < list0.len() ==> list0[p] != list0[q],
                self.accounts().contains_key(account_id),
                self.accounts().contains_key(target_account_id),
                self.minted_editions == old(self).minted_editions,
                self.pending_mint_editions == old(self).pending_mint_editions,
                self.year_mapping == old(self).year_mapping,
                self.next_token_id == old(self).next_token_id,
                self.last_minted_token_id == old(self).last_minted_token_id,
                self.accounts().dom() =~= old(self).accounts().dom().insert(target_account_id),
                forall|a: u64|
                    a != account_id && a != target_account_id && old(self).accounts().contains_key(a) ==> self.accounts()[a] == old(self).accounts()[a],
                details@ + Self::year_walk(list0.skip(i as int), walk_bal, remaining)
                    == walk_full,
                forall|p: int|
                    i <= p < list0.len() ==> {
                        let u = (#[trigger] list0[p]) as u64;
                        walk_bal.contains_key(u) == self.accounts()[account_id].m().contains_key(
                            u,
                        ) && (walk_bal.contains_key(u) ==> walk_bal[u]
                            == self.accounts()[account_id].m()[u])
                    },
                account_id != target_account_id ==> self.accounts()[account_id].m()
                    =~= Self::apply_debits(fbal0, Self::pairs_of(details@)),
                account_id != target_account_id ==> self.accounts()[target_account_id].m()
                    =~= Self::merge_credits(to_m0, Self::pairs_of(details@)),
                account_id == target_account_id ==> self.accounts()[account_id].m() == fbal0,
            decreases list0.len() - i,
        {
            let tid: TokenId = year_list[i];
            let ghost t = tid as u64;
            let cur_opt: Option<CarbonUnit> = match self.balances.get(account_id) {
                Some(bm) => match bm.get(tid as u64) {
                    Some(v) => Some(*v),
                    None => None,
                },
                None => unreached(),
            };
            proof {
                assert(list0.skip(i as int)[0] == list0[i as int]);
                assert(list0.skip(i as int).skip(1) =~= list0.skip(i as int + 1));
            }
            match cur_opt {
                None => {
                    proof {
                        assert(!walk_bal.contains_key(t));
                        assert(Self::year_walk(list0.skip(i as int), walk_bal, remaining)
                            == Self::year_walk(list0.skip(i as int + 1), walk_bal, remaining));
                    }
                    i = i + 1;
                },
                Some(balance) => {
                    let d: CarbonUnit;
                    if balance < remaining {
                        // the ledger zeroes the entry before decrementing
                        // what is still owed, so the owed amount stays put
                        // and the walk drains later editions as well
                        d = balance;
                    } else {
                        d = remaining;
                        remaining = 0;
                    }
                    let ghost pre_move = *self;
                    proof {
                        assert(walk_bal.contains_key(t) && walk_bal[t] == balance);
                    }
                    let ghost prev_details = details@;
                    self.move_units(account_id, target_account_id, tid as u64, d);
                    details.push(TokenEdition { id: tid, amount: d });
                    proof {
                        let e = TokenEdition { id: tid, amount: d };
                        assert(details@ == prev_details.push(e));
                        assert(Self::pairs_of(details@) =~= Self::pairs_of(prev_details).push(
                            (t, d),
                        ));
                        assert(Self::pairs_of(details@).drop_last() =~= Self::pairs_of(
                            prev_details,
                        ));
                        walk_bal = walk_bal.insert(t, (balance - d) as CarbonUnit);
                        assert forall|p: int| i + 1 <= p < list0.len() implies {
                            let u = (#[trigger] list0[p]) as u64;
                            walk_bal.contains_key(u) == self.accounts()[account_id].m(
                            ).contains_key(u) && (walk_bal.contains_key(u) ==> walk_bal[u]
                                == self.accounts()[account_id].m()[u])
                        } by {
                            assert(list0[p] != list0[i as int]);
                            assert((list0[p] as u64) != t);
                            if account_id != target_account_id {
                                assert(pre_move.accounts()[account_id].m().contains_key(
                                    list0[p] as u64,
                                ) == self.accounts()[account_id].m().contains_key(
                                    list0[p] as u64,
                                ));
                            }
                        }
                        assert(details@ + Self::year_walk(
                            list0.skip(i as int + 1),
                            walk_bal,
                            remaining,
                        ) =~= walk_full);
                        assert(Self::pairs_of(details@).last() == (t, d));
                        if account_id != target_account_id {
                            assert(Self::apply_debits(fbal0, Self::pairs_of(prev_details))
                                == pre_move.accounts()[account_id].m());
                            assert(self.accounts()[account_id].m() =~= Self::apply_debits(
                                fbal0,
                                Self::pairs_of(details@),
                            ));
                            assert(Self::merge_credits(to_m0, Self::pairs_of(prev_details))
                                == pre_move.accounts()[target_account_id].m());
                            assert(Self::entry_amount(
                                pre_move.accounts()[target_account_id],
                                t,
                            ) == (if pre_move.accounts()[target_account_id].m().contains_key(t) {
                                pre_move.accounts()[target_account_id].m()[t] as int
                            } else {
                                0
                            }));
                            assert(self.accounts()[target_account_id].m() =~= Self::merge_credits(
                                to_m0,
                                Self::pairs_of(details@),
                            ));
                        }
                    }
                    i = i + 1;
                },
            }
        }
        proof {
            assert(Self::year_walk(list0.skip(i as int), walk_bal, remaining)
                == Seq::<TokenEdition>::empty());
            assert(details@ =~= walk_full);
            assert(details@ == walk_full);
        }
        Ok(details)
    }

    /// An account that holds nothing has a zero aggregate for every year.
    pub proof fn lemma_year_balance_agree_empty(list: Seq<TokenId>, bm: Map<u64, CarbonUnit>)
        requires
            bm =~= Map::<u64, CarbonUnit>::empty(),
        ensures
            Self::year_balance(list, bm) == 0,
        decreases list.len(),
    {
        if list.len() > 0 {
            Self::lemma_year_balance_agree_empty(list.drop_last(), bm);
        }
    }

    /// Removing one pending entry shifts the later ones down by one.
    pub proof fn lemma_remove_entry_indices(s: Seq<PendingEntry>, i: int)
        requires
            0 <= i < s.len(),
        ensures
            s.remove(i).len() == s.len() - 1,
            forall|p: int| 0 <= p < i ==> #[trigger] s.remove(i)[p] == s[p],
            forall|p: int| i <= p < s.len() - 1 ==> #[trigger] s.remove(i)[p] == s[p + 1],
    {
    }

    /// The first rule a requested bundle pair breaks, checked pair by pair
    /// in the given order against the minted editions and the payer's
    /// balance map as they stand before anything moves.
    pub open spec fn bundle_violation(
        minted: Map<u64, Detail>,
        fm: Map<u64, CarbonUnit>,
        ps: Seq<TokenEdition>,
    ) -> Option<Message>
        decreases ps.len(),
    {
        if ps.len() == 0 {
            None
        } else {
            let t = ps[0].id as u64;
            if !minted.contains_key(t) {
                Some(Message::TokenNotFound)
            } else if ps[0].amount == 0 {
                Some(Message::CannotTransferZeroCarbonUnit)
            } else if !fm.contains_key(t) {
                Some(Message::InsufficientCarbonUnit)
            } else if fm[t] < ps[0].amount {
                Some(Message::InsufficientCarbonUnit)
            } else {
                Self::bundle_violation(minted, fm, ps.skip(1))
            }
        }
    }

    /// A bundle that passed validation names only minted editions and no
    /// zero amounts.
    pub proof fn lemma_bundle_violation_none(
        minted: Map<u64, Detail>,
        fm: Map<u64, CarbonUnit>,
        ps: Seq<TokenEdition>,
    )
        requires
            Self::bundle_violation(minted, fm, ps).is_none(),
        ensures
            forall|i: int|
                0 <= i < ps.len() ==> minted.contains_key((#[trigger] ps[i]).id as u64)
                    && ps[i].amount != 0 && fm.contains_key(ps[i].id as u64) && fm[ps[i].id
                    as u64] >= ps[i].amount,
        decreases ps.len(),
    {
        if ps.len() > 0 {
            Self::lemma_bundle_violation_none(minted, fm, ps.skip(1));
            assert(forall|i: int| 1 <= i < ps.len() ==> ps.skip(1)[i - 1] == ps[i]);
        }
    }

    /// The sequential application of a validated bundle: pair by pair, the
    /// payer entry is debited — removed when drained — and the target
    /// entry credited; `None` marks the pair at which the payer's balance
    /// no longer suffices. When payer and target are one account nothing
    /// changes as long as each pair alone is covered.
    pub open spec fn bundle_steps(
        fm: Map<u64, CarbonUnit>,
        tm: Map<u64, CarbonUnit>,
        ps: Seq<TokenEdition>,
        same: bool,
    ) -> Option<(Map<u64, CarbonUnit>, Map<u64, CarbonUnit>)>
        decreases ps.len(),
    {
        if ps.len() == 0 {
            Some((fm, tm))
        } else {
            let t = ps[0].id as u64;
            let a = ps[0].amount;
            if !fm.contains_key(t) || fm[t] < a {
                None
            } else if same {
                Self::bundle_steps(fm, tm, ps.skip(1), true)
            } else {
                let fm2 = if fm[t] == a {
                    fm.remove(t)
                } else {
                    fm.insert(t, (fm[t] - a) as CarbonUnit)
                };
                let tcur: int = if tm.contains_key(t) {
                    tm[t] as int
                } else {
                    0
                };
                Self::bundle_steps(fm2, tm.insert(t, (tcur + a) as CarbonUnit), ps.skip(1), same)
            }
        }
    }

    /// Splitting a bundle run at any point composes.
    pub proof fn lemma_bundle_split(
        fm: Map<u64, CarbonUnit>,
        tm: Map<u64, CarbonUnit>,
        ps: Seq<TokenEdition>,
        j: int,
        same: bool,
    )
        requires
            0 <= j <= ps.len(),
        ensures
            Self::bundle_steps(fm, tm, ps, same) == (match Self::bundle_steps(
                fm,
                tm,
                ps.take(j),
                same,
            ) {
                Some(mid) => Self::bundle_steps(mid.0, mid.1, ps.skip(j), same),
                None => None,
            }),
        decreases ps.len(),
    {
        if j == 0 {
            assert(ps.take(0) =~= Seq::<TokenEdition>::empty());
            assert(ps.skip(0) =~= ps);
        } else {
            let t = ps[0].id as u64;
            let a = ps[0].amount;
            assert(ps.take(j)[0] == ps[0]);
            if !fm.contains_key(t) || fm[t] < a {
                assert(Self::bundle_steps(fm, tm, ps.take(j), same).is_none());
            } else {
                assert(ps.take(j).skip(1) =~= ps.skip(1).take(j - 1));
                assert(ps.skip(j) =~= ps.skip(1).skip(j - 1));
                if same {
                    Self::lemma_bundle_split(fm, tm, ps.skip(1), j - 1, same);
                } else {
                    let fm2 = if fm[t] == a {
                        fm.remove(t)
                    } else {
                        fm.insert(t, (fm[t] - a) as CarbonUnit)
                    };
                    let tcur: int = if tm.contains_key(t) {
                        tm[t] as int
                    } else {
                        0
                    };
                    Self::lemma_bundle_split(
                        fm2,
                        tm.insert(t, (tcur + a) as CarbonUnit),
                        ps.skip(1),
                        j - 1,
                        same,
                    );
                }
            }
        }
    }

    /// The state change and outcome of a validated bundle's second pass,
    /// starting from the untouched ledger: the pairs are applied in order
    /// as single-edition transfers; when the payer's balance gives out
    /// mid-way — possible only when the bundle names an edition twice —
    /// the pairs before that point stay applied.
    pub open spec fn compounded_applied(
        pre: Tracker,
        post: Tracker,
        from: u64,
        to: u64,
        ps: Seq<TokenEdition>,
        r: Result<(), Message>,
    ) -> bool {
        let fm0 = pre.accounts()[from].m();
        let tm0 = if pre.accounts().contains_key(to) {
            pre.accounts()[to].m()
        } else {
            Map::<u64, CarbonUnit>::empty()
        };
        let same = from == to;
        &&& post.minted_editions == pre.minted_editions
        &&& post.pending_mint_editions == pre.pending_mint_editions
        &&& post.year_mapping == pre.year_mapping
        &&& post.next_token_id == pre.next_token_id
        &&& post.last_minted_token_id == pre.last_minted_token_id
        &&& post.accounts().dom() =~= pre.accounts().dom().insert(to)
        &&& forall|a: u64|
            a != from && a != to && pre.accounts().contains_key(a) ==> post.accounts()[a]
                == pre.accounts()[a]
        &&& same ==> post.accounts()[from].m() == fm0
        &&& match Self::bundle_steps(fm0, tm0, ps, same) {
            Some(fin) => r == Ok::<(), Message>(()) && (!same ==> post.accounts()[from].m()
                == fin.0 && post.accounts()[to].m() == fin.1),
            None => r == Err::<(), Message>(Message::InsufficientCarbonUnit) && (!same
                ==> Self::bundle_failed_at(
                fm0,
                tm0,
                ps,
                same,
                post.accounts()[from].m(),
                post.accounts()[to].m(),
            )),
        }
    }

    /// Some prefix of the bundle was applied in full and produced these
    /// two balance maps; the pair right after it is the one that failed.
    pub open spec fn bundle_failed_at(
        fm0: Map<u64, CarbonUnit>,
        tm0: Map<u64, CarbonUnit>,
        ps: Seq<TokenEdition>,
        same: bool,
        fmr: Map<u64, CarbonUnit>,
        tmr: Map<u64, CarbonUnit>,
    ) -> bool {
        exists|k: int|
            0 <= k < ps.len() && (#[trigger] Self::bundle_steps(fm0, tm0, ps.take(k), same))
                == Some((fmr, tmr))
    }

    /// The all-or-nothing bundle transfer: a first pass validates every
    /// requested pair against the untouched ledger — aborting on the first
    /// violation with nothing changed — and only then a second pass
    /// applies the pairs in the given order as single-edition transfers.
    /// A bundle that names the same edition twice can still exhaust the
    /// balance mid-way through the second pass; the error then is
    /// `InsufficientCarbonUnit` with the pairs before it already applied.
    #[verifier::rlimit(100)]
    #[verifier::spinoff_prover]
    pub fn transfer_token_compounded(
        &mut self,
        account_id: AccountId,
        target_account_id: AccountId,
        params: &TokenEditions,
    ) -> (r: Result<(), Message>)
        requires
            old(self).wf(),
        ensures
            final(self).wf(),
            !old(self).accounts().contains_key(account_id) ==> r == Err::<(), Message>(
                Message::InsufficientCarbonUnit,
            ) && *final(self) == *old(self),
            old(self).accounts().contains_key(account_id) ==> {
                let fm0 = old(self).accounts()[account_id].m();
                let tm0 = if old(self).accounts().contains_key(target_account_id) {
                    old(self).accounts()[target_account_id].m()
                } else {
                    Map::<u64, CarbonUnit>::empty()
                };
                let same = account_id == target_account_id;
                let viol = Self::bundle_violation(old(self).minted(), fm0, params@);
                &&& viol matches Some(e) ==> r == Err::<(), Message>(e) && *final(self) == *old(self)
                &&& viol.is_none() && params@.len() == 0 ==> r == Ok::<(), Message>(())
                    && *final(self) == *old(self)
                &&& viol.is_none() && params@.len() > 0 ==> Self::compounded_applied(
                    *old(self),
                    *final(self),
                    account_id,
                    target_account_id,
                    params@,
                    r,
                )
            },
    {
        if !self.balances.contains_key(account_id) {
            return Err(Message::InsufficientCarbonUnit);
        }
        let ghost fm0 = self.accounts()[account_id].m();
        proof {
            assert(self.accounts()[account_id].wf());
            assert(params@.skip(0) =~= params@);
        }
        let mut j: usize = 0;
        while j < params.len()
            invariant
                old(self).wf(),
                *self == *old(self),
                old(self).accounts().contains_key(account_id),
                fm0 == old(self).accounts()[account_id].m(),
                old(self).accounts()[account_id].wf(),
                j <= params@.len(),
                Self::bundle_violation(old(self).minted(), fm0, params@.skip(j as int))
                    == Self::bundle_violation(old(self).minted(), fm0, params@),
            decreases params@.len() - j,
        {
            let e: TokenEdition = params[j];
            let t: u64 = e.id as u64;
            proof {
                assert(params@.skip(j as int)[0] == params@[j as int]);
                assert(params@.skip(j as int).skip(1) =~= params@.skip(j as int + 1));
            }
            if !self.minted_editions.contains_key(t) {
                return Err(Message::TokenNotFound);
            }
            if e.amount == 0 {
                return Err(Message::CannotTransferZeroCarbonUnit);
            }
            let held: Option<CarbonUnit> = match self.balances.get(account_id) {
                Some(bm) => match bm.get(t) {
                    Some(v) => Some(*v),
                    None => None,
                },
                None => unreached(),
            };
            match held {
                None => {
                    return Err(Message::InsufficientCarbonUnit);
                },
                Some(b) => {
                    if b < e.amount {
                        return Err(Message::InsufficientCarbonUnit);
                    }
                },
            }
            j = j + 1;
        }
        proof {
            assert(params@.skip(params@.len() as int) =~= Seq::<TokenEdition>::empty());
            Self::lemma_bundle_violation_none(old(self).minted(), fm0, params@);
        }
        let ghost same = account_id == target_account_id;
        let ghost tm0 = if old(self).accounts().contains_key(target_account_id) {
            old(self).accounts()[target_account_id].m()
        } else {
            Map::<u64, CarbonUnit>::empty()
        };
        let mut k: usize = 0;
        while k < params.len()
            invariant
                self.wf(),
                old(self).wf(),
                same == (account_id == target_account_id),
                fm0 == old(self).accounts()[account_id].m(),
                tm0 == (if old(self).accounts().contains_key(target_account_id) {
                    old(self).accounts()[target_account_id].m()
                } else {
                    Map::<u64, CarbonUnit>::empty()
                }),
                Self::bundle_violation(old(self).minted(), fm0, params@).is_none(),
                k <= params@.len(),
                old(self).accounts().contains_key(account_id),
                self.accounts().contains_key(account_id),
                self.minted_editions == old(self).minted_editions,
                self.pending_mint_editions == old(self).pending_mint_editions,
                self.year_mapping == old(self).year_mapping,
                self.next_token_id == old(self).next_token_id,
                self.last_minted_token_id == old(self).last_minted_token_id,
                k == 0 ==> *self == *old(self),
                k > 0 ==> self.accounts().dom() =~= old(self).accounts().dom().insert(
                    target_account_id,
                ),
                k > 0 ==> forall|a: u64|
                    a != account_id && a != target_account_id && old(self).accounts().contains_key(a) ==> self.accounts()[a] == old(self).accounts()[a],
                same ==> self.accounts()[account_id].m() == fm0,
                !same ==> Self::bundle_steps(fm0, tm0, params@.take(k as int), same) == Some(
                    (
                        self.accounts()[account_id].m(),
                        (if self.accounts().contains_key(target_account_id) {
                            self.accounts()[target_account_id].m()
                        } else {
                            tm0
                        }),
                    ),
                ),
                same ==> Self::bundle_steps(fm0, tm0, params@.take(k as int), same) == Some(
                    (fm0, tm0),
                ),
            decreases params@.len() - k,
        {
            let e: TokenEdition = params[k];
            let ghost t = e.id as u64;
            let ghost pre_step = *self;
            let ghost fm_cur = self.accounts()[account_id].m();
            let ghost tm_cur = if self.accounts().contains_key(target_account_id) {
                self.accounts()[target_account_id].m()
            } else {
                tm0
            };
            proof {
                Self::lemma_bundle_violation_none(old(self).minted(), fm0, params@);
                assert(old(self).minted().contains_key(t) && e.amount != 0);
                assert(params@.take(k as int + 1).take(k as int) =~= params@.take(k as int));
                assert(params@.take(k as int + 1).skip(k as int) =~= seq![params@[k as int]]);
                Self::lemma_bundle_split(fm0, tm0, params@.take(k as int + 1), k as int, same);
                if same {
                    assert(fm_cur == fm0);
                    assert(fm0.contains_key(t) && fm0[t] >= e.amount);
                }
            }
            let moved = self.transfer_token_by_id(
                account_id,
                target_account_id,
                e.id,
                e.amount,
            );
            match moved {
                Err(err) => {
                    proof {
                        assert(err == Message::InsufficientCarbonUnit);
                        assert(pre_step.held(account_id, t) < e.amount);
                        assert(!same);
                        assert(fm_cur.contains_key(t) ==> fm_cur[t] < e.amount);
                        assert(Self::bundle_steps(fm_cur, tm_cur, seq![params@[k as int]], same)
                            == None::<(Map<u64, CarbonUnit>, Map<u64, CarbonUnit>)>);
                        assert(Self::bundle_steps(
                            fm0,
                            tm0,
                            params@.take(k as int + 1),
                            same,
                        ) is None);
                        Self::lemma_bundle_split(fm0, tm0, params@, k as int + 1, same);
                        assert(params@.take(k as int + 1).take(k as int + 1) =~= params@.take(
                            k as int + 1,
                        ));
                        assert(Self::bundle_steps(fm0, tm0, params@, same) is None);
                        assert(Self::created_target_map(pre_step, *self, target_account_id));
                        assert(self.accounts()[account_id].m() == fm_cur);
                        assert((if self.accounts().contains_key(target_account_id) {
                            self.accounts()[target_account_id].m()
                        } else {
                            tm0
                        }) == tm_cur);
                        assert(Self::bundle_steps(
                            fm0,
                            tm0,
                            params@.take(k as int),
                            same,
                        ) matches Some(mid) && (k as int) < params@.len()
                            && self.accounts()[account_id].m() == mid.0 && (
                        if self.accounts().contains_key(target_account_id) {
                            self.accounts()[target_account_id].m()
                        } else {
                            tm0
                        }) == mid.1);
                        assert(self.accounts().contains_key(target_account_id));
                        assert(self.accounts()[target_account_id].m() == tm_cur);
                        assert(exists|kk: int|
                            (#[trigger] Self::bundle_steps(
                                fm0,
                                tm0,
                                params@.take(kk),
                                same,
                            )) matches Some(mid) && 0 <= kk < params@.len() && (!same
                                ==> self.accounts()[account_id].m() == mid.0
                                && self.accounts()[target_account_id].m() == mid.1)) by {
                            assert(Self::bundle_steps(
                                fm0,
                                tm0,
                                params@.take(k as int),
                                same,
                            ) matches Some(mid) && 0 <= (k as int) && (k as int)
                                < params@.len() && (!same
                                ==> self.accounts()[account_id].m() == mid.0
                                && self.accounts()[target_account_id].m() == mid.1));
                        }
                        assert(self.accounts().dom() =~= old(self).accounts().dom().insert(
                            target_account_id,
                        ));
                        assert(Self::bundle_steps(fm0, tm0, params@.take(k as int), same)
                            == Some((self.accounts()[account_id].m(), tm_cur)));
                        assert(Self::bundle_failed_at(
                            fm0,
                            tm0,
                            params@,
                            same,
                            self.accounts()[account_id].m(),
                            self.accounts()[target_account_id].m(),
                        ));
                        assert forall|a: u64|
                            a != account_id && a != target_account_id && old(self).accounts().contains_key(a) implies self.accounts()[a] == old(self).accounts()[a] by {
                            assert(pre_step.accounts().contains_key(a));
                        }
                        assert(Self::compounded_applied(
                            *old(self),
                            *self,
                            account_id,
                            target_account_id,
                            params@,
                            Err::<(), Message>(Message::InsufficientCarbonUnit),
                        ));
                    }
                    return Err(err);
                },
                Ok(_) => {
                    proof {
                        assert(pre_step.minted() == old(self).minted());
                        assert(pre_step.accounts()[account_id].m() == fm_cur);
                        assert(pre_step.held(account_id, t) >= e.amount);
                        assert(Self::transferred_by_id(
                            pre_step,
                            *self,
                            account_id,
                            target_account_id,
                            t,
                            e.amount,
                        ));
                        let ghost ps0 = seq![params@[k as int]];
                        assert(ps0[0] == params@[k as int]);
                        assert(ps0.skip(1) =~= Seq::<TokenEdition>::empty());
                        if same {
                            assert(fm0.contains_key(t) && fm0[t] >= e.amount);
                            assert(Self::bundle_steps(fm0, tm0, ps0.skip(1), same) == Some(
                                (fm0, tm0),
                            ));
                            assert(Self::bundle_steps(fm0, tm0, ps0, same) == Some((fm0, tm0)));
                        }
                        if !same {
                            assert(fm_cur.contains_key(t) && fm_cur[t] >= e.amount);
                            let ps1 = seq![params@[k as int]];
                            assert(ps1[0] == params@[k as int]);
                            assert(ps1.skip(1) =~= Seq::<TokenEdition>::empty());
                            let a = e.amount;
                            let fm2 = if fm_cur[t] == a {
                                fm_cur.remove(t)
                            } else {
                                fm_cur.insert(t, (fm_cur[t] - a) as CarbonUnit)
                            };
                            let tcur: int = if tm_cur.contains_key(t) {
                                tm_cur[t] as int
                            } else {
                                0
                            };
                            let tm2 = tm_cur.insert(t, (tcur + a) as CarbonUnit);
                            assert(Self::bundle_steps(fm2, tm2, ps1.skip(1), same) == Some(
                                (fm2, tm2),
                            ));
                            assert(Self::bundle_steps(fm_cur, tm_cur, ps1, same) == Some(
                                (fm2, tm2),
                            ));
                            assert(pre_step.held(target_account_id, t) == tcur);
                            assert(fm2 == self.accounts()[account_id].m());
                            assert(tm2 == self.accounts()[target_account_id].m());
                        }
                    }
                },
            }
            k = k + 1;
        }
        proof {
            assert(params@.take(params@.len() as int) =~= params@);
            if params.len() > 0 {
                assert(Self::compounded_applied(
                    *old(self),
                    *self,
                    account_id,
                    target_account_id,
                    params@,
                    Ok::<(), Message>(()),
                ));
            }
        }
        Ok(())
    }

    /// Removing one pending entry keeps the pending requests sound, also
    /// when that entry's reserved id was just minted.
    pub proof fn lemma_pending_sound_remove(pre: Tracker, post: Tracker, i: int)
        requires
            pre.pending_sound(),
            0 <= i < pre.pending_mint_editions@.len(),
            post.pending_mint_editions@ == pre.pending_mint_editions@.remove(i),
            forall|u: u64|
                pre.minted().contains_key(u) ==> #[trigger] post.minted().contains_key(u),
            forall|u: u64|
                #[trigger] post.minted().contains_key(u) ==> pre.minted().contains_key(u) || u
                    == pre.pending_mint_editions@[i].pending.detail.id as u64,
        ensures
            post.pending_sound(),
    {
        let s0 = pre.pending_mint_editions@;
        let s1 = post.pending_mint_editions@;
        Self::lemma_remove_entry_indices(s0, i);
        assert forall|p: int, q: int| 0 <= p < q < s1.len() implies s1[p].registry_id@
            != s1[q].registry_id@ && s1[p].pending.detail.id != s1[q].pending.detail.id by {
            let p0: int = if p < i {
                p
            } else {
                p + 1
            };
            let q0: int = if q < i {
                q
            } else {
                q + 1
            };
            assert(s1[p] == s0[p0]);
            assert(s1[q] == s0[q0]);
        }
        assert forall|p: int| 0 <= p < s1.len() implies !post.minted().contains_key(
            (#[trigger] s1[p]).pending.detail.id as u64,
        ) && s1[p].pending.detail.retired == 0 && s1[p].pending.detail.registry_id@
            == s1[p].registry_id@ by {
            let p0: int = if p < i {
                p
            } else {
                p + 1
            };
            assert(s1[p] == s0[p0]);
            assert(0 <= p0 < s0.len() && p0 != i);
            assert(s0[p0].pending.detail.retired == 0 && s0[p0].pending.detail.registry_id@
                == s0[p0].registry_id@);
            assert(!pre.minted().contains_key(s0[p0].pending.detail.id as u64));
            if p0 < i {
                assert(s0[p0].pending.detail.id != s0[i].pending.detail.id);
            } else {
                assert(s0[i].pending.detail.id != s0[p0].pending.detail.id);
            }
            assert(!post.minted().contains_key(s0[p0].pending.detail.id as u64));
        }
    }

    /// The sum of `supply` over the given edition entries.
    pub open spec fn sum_supply(s: Seq<(u64, Detail)>) -> int
        decreases s.len(),
    {
        if s.len() == 0 {
            0
        } else {
            Self::sum_supply(s.drop_last()) + s.last().1.supply
        }
    }

    /// The sum of `retired` over the given edition entries.
    pub open spec fn sum_retired(s: Seq<(u64, Detail)>) -> int
        decreases s.len(),
    {
        if s.len() == 0 {
            0
        } else {
            Self::sum_retired(s.drop_last()) + s.last().1.retired
        }
    }

    /// The total active supply over all editions.
    pub open spec fn total_supply(&self) -> int {
        Self::sum_supply(self.minted_editions.kvs())
    }

    /// The total retired amount over all editions.
    pub open spec fn total_retired(&self) -> int {
        Self::sum_retired(self.minted_editions.kvs())
    }

    /// Supply and retired prefixes are bounded by their whole sums.
    pub proof fn lemma_sum_supply_prefix(s: Seq<(u64, Detail)>, j: int)
        requires
            0 <= j <= s.len(),
        ensures
            0 <= Self::sum_supply(s.take(j)) <= Self::sum_supply(s),
            0 <= Self::sum_retired(s.take(j)) <= Self::sum_retired(s),
        decreases s.len() - j,
    {
        Self::lemma_sum_supply_nonneg(s.take(j));
        if j == s.len() {
            assert(s.take(j) =~= s);
        } else {
            Self::lemma_sum_supply_prefix(s, j + 1);
            assert(s.take(j + 1).drop_last() =~= s.take(j));
            assert(s.take(j + 1).last() == s[j]);
        }
    }

    /// Sums of unsigned amounts are never negative.
    pub proof fn lemma_sum_supply_nonneg(s: Seq<(u64, Detail)>)
        ensures
            Self::sum_supply(s) >= 0,
            Self::sum_retired(s) >= 0,
        decreases s.len(),
    {
        if s.len() > 0 {
            Self::lemma_sum_supply_nonneg(s.drop_last());
        }
    }

    /// The sum of `supply` over one year's editions, in index order; an id
    /// with no minted edition contributes nothing.
    pub open spec fn year_supply(list: Seq<TokenId>, minted: Map<u64, Detail>) -> int
        decreases list.len(),
    {
        if list.len() == 0 {
            0
        } else {
            Self::year_supply(list.drop_last(), minted) + (if minted.contains_key(
                list.last() as u64,
            ) {
                minted[list.last() as u64].supply as int
            } else {
                0
            })
        }
    }

    /// The sum of `retired` over one year's editions, in index order.
    pub open spec fn year_retired(list: Seq<TokenId>, minted: Map<u64, Detail>) -> int
        decreases list.len(),
    {
        if list.len() == 0 {
            0
        } else {
            Self::year_retired(list.drop_last(), minted) + (if minted.contains_key(
                list.last() as u64,
            ) {
                minted[list.last() as u64].retired as int
            } else {
                0
            })
        }
    }

    /// Year sums over a prefix are bounded by the whole.
    pub proof fn lemma_year_sums_prefix(list: Seq<TokenId>, minted: Map<u64, Detail>, j: int)
        requires
            0 <= j <= list.len(),
        ensures
            0 <= Self::year_supply(list.take(j), minted) <= Self::year_supply(list, minted),
            0 <= Self::year_retired(list.take(j), minted) <= Self::year_retired(list, minted),
        decreases list.len() - j,
    {
        Self::lemma_year_sums_nonneg(list.take(j), minted);
        if j == list.len() {
            assert(list.take(j) =~= list);
        } else {
            Self::lemma_year_sums_prefix(list, minted, j + 1);
            assert(list.take(j + 1).drop_last() =~= list.take(j));
            assert(list.take(j + 1).last() == list[j]);
        }
    }

    /// Year sums are never negative.
    pub proof fn lemma_year_sums_nonneg(list: Seq<TokenId>, minted: Map<u64, Detail>)
        ensures
            Self::year_supply(list, minted) >= 0,
            Self::year_retired(list, minted) >= 0,
        decreases list.len(),
    {
        if list.len() > 0 {
            Self::lemma_year_sums_nonneg(list.drop_last(), minted);
        }
    }

    /// Balance prefixes are bounded by the account's whole total.
    pub proof fn lemma_sum_values_prefix(s: Seq<(u64, CarbonUnit)>, j: int)
        requires
            0 <= j <= s.len(),
        ensures
            0 <= Self::sum_values(s.take(j)) <= Self::sum_values(s),
        decreases s.len() - j,
    {
        Self::lemma_sum_values_zero(s.take(j));
        if j == s.len() {
            assert(s.take(j) =~= s);
        } else {
            Self::lemma_sum_values_prefix(s, j + 1);
            assert(s.take(j + 1).drop_last() =~= s.take(j));
            assert(s.take(j + 1).last() == s[j]);
        }
    }

    /// The metadata of the edition, cloned for the caller. Fails with
    /// `TokenNotFound` exactly when no such edition was ever minted.
    pub fn get_edition_details(&self, id: TokenId) -> (r: Result<Detail, Message>)
        requires
            self.wf(),
        ensures
            match r {
                Ok(detail) => self.minted().contains_key(id as u64) && detail == self.minted()[
                    id as u64
                ],
                Err(e) => e == Message::TokenNotFound && !self.minted().contains_key(id as u64),
            },
    {
        match self.minted_editions.get(id as u64) {
            None => Err(Message::TokenNotFound),
            Some(detail) => Ok(detail.clone()),
        }
    }

    /// The id of the most recently approved edition, if any.
    pub fn get_last_minted_edition_id(&self) -> (r: Option<TokenId>)
        ensures
            r == self.last_minted_token_id,
    {
        self.last_minted_token_id
    }

    /// The metadata of the edition, cloned for the caller. Fails with
    /// `TokenNotFound` exactly when no such edition was ever minted.
    pub fn get_minted_edition_by_id(&self, token_id: TokenId) -> (r: Result<Detail, Message>)
        requires
            self.wf(),
        ensures
            match r {
                Ok(detail) => self.minted().contains_key(token_id as u64) && detail
                    == self.minted()[token_id as u64],
                Err(e) => e == Message::TokenNotFound && !self.minted().contains_key(
                    token_id as u64,
                ),
            },
    {
        self.get_edition_details(token_id)
    }

    /// The metadata of the most recently approved edition. Fails with
    /// `TokenNotFound` exactly when nothing was ever approved.
    pub fn get_last_minted_edition_info(&self) -> (r: Result<Detail, Message>)
        requires
            self.wf(),
        ensures
            match r {
                Ok(detail) => self.last_minted_token_id matches Some(id) && detail
                    == self.minted()[id as u64],
                Err(e) => e == Message::TokenNotFound && self.last_minted_token_id.is_none(),
            },
    {
        match self.last_minted_token_id {
            Some(last_minted_id) => self.get_minted_edition_by_id(last_minted_id),
            None => Err(Message::TokenNotFound),
        }
    }

    /// The sum of `supply` over all editions. Transfers never change it;
    /// only retirement moves supply into the retired tally.
    pub fn get_total_supply(&self) -> (r: CarbonUnit)
        requires
            self.wf(),
            self.total_supply() <= CarbonUnit::MAX,
        ensures
            r == self.total_supply(),
    {
        let mut total_supply: CarbonUnit = 0;
        let mut j: usize = 0;
        while j < self.minted_editions.entries.len()
            invariant
                self.wf(),
                self.total_supply() <= CarbonUnit::MAX,
                j <= self.minted_editions.kvs().len(),
                total_supply == Self::sum_supply(self.minted_editions.kvs().take(j as int)),
            decreases self.minted_editions.kvs().len() - j,
        {
            proof {
                Self::lemma_sum_supply_prefix(self.minted_editions.kvs(), j as int + 1);
                assert(self.minted_editions.kvs().take(j as int + 1).drop_last()
                    =~= self.minted_editions.kvs().take(j as int));
                assert(self.minted_editions.kvs().take(j as int + 1).last()
                    == self.minted_editions.kvs()[j as int]);
            }
            total_supply = total_supply + self.minted_editions.entries[j].1.supply;
            j = j + 1;
        }
        proof {
            assert(self.minted_editions.kvs().take(self.minted_editions.kvs().len() as int)
                =~= self.minted_editions.kvs());
        }
        total_supply
    }

    /// The sum of `retired` over all editions.
    pub fn get_total_retired(&self) -> (r: CarbonUnit)
        requires
            self.wf(),
            self.total_retired() <= CarbonUnit::MAX,
        ensures
            r == self.total_retired(),
    {
        let mut total_retired: CarbonUnit = 0;
        let mut j: usize = 0;
        while j < self.minted_editions.entries.len()
            invariant
                self.wf(),
                self.total_retired() <= CarbonUnit::MAX,
                j <= self.minted_editions.kvs().len(),
                total_retired == Self::sum_retired(self.minted_editions.kvs().take(j as int)),
            decreases self.minted_editions.kvs().len() - j,
        {
            proof {
                Self::lemma_sum_supply_prefix(self.minted_editions.kvs(), j as int + 1);
                assert(self.minted_editions.kvs().take(j as int + 1).drop_last()
                    =~= self.minted_editions.kvs().take(j as int));
                assert(self.minted_editions.kvs().take(j as int + 1).last()
                    == self.minted_editions.kvs()[j as int]);
            }
            total_retired = total_retired + self.minted_editions.entries[j].1.retired;
            j = j + 1;
        }
        proof {
            assert(self.minted_editions.kvs().take(self.minted_editions.kvs().len() as int)
                =~= self.minted_editions.kvs());
        }
        total_retired
    }

    /// The edition's active supply. Fails with `TokenNotFound` exactly
    /// when no such edition was ever minted.
    pub fn get_supply_by_id(&self, token_id: TokenId) -> (r: Result<CarbonUnit, Message>)
        requires
            self.wf(),
        ensures
            match r {
                Ok(v) => self.minted().contains_key(token_id as u64) && v == self.minted()[
                    token_id as u64
                ].supply,
                Err(e) => e == Message::TokenNotFound && !self.minted().contains_key(
                    token_id as u64,
                ),
            },
    {
        match self.minted_editions.get(token_id as u64) {
            None => Err(Message::TokenNotFound),
            Some(detail) => Ok(detail.supply),
        }
    }

    /// The edition's cumulative retired amount. Fails with `TokenNotFound`
    /// exactly when no such edition was ever minted.
    pub fn get_retired_by_id(&self, token_id: TokenId) -> (r: Result<CarbonUnit, Message>)
        requires
            self.wf(),
        ensures
            match r {
                Ok(v) => self.minted().contains_key(token_id as u64) && v == self.minted()[
                    token_id as u64
                ].retired,
                Err(e) => e == Message::TokenNotFound && !self.minted().contains_key(
                    token_id as u64,
                ),
            },
    {
        match self.minted_editions.get(token_id as u64) {
            None => Err(Message::TokenNotFound),
            Some(detail) => Ok(detail.retired),
        }
    }

    /// The sum of `supply` over the year's editions. Fails with
    /// `TokenNotFound` exactly when the year has no editions.
    pub fn get_supply_by_year(&self, year: Year) -> (r: Result<CarbonUnit, Message>)
        requires
            self.wf(),
            self.years().contains_key(year as u64) ==> Self::year_supply(
                self.years()[year as u64]@,
                self.minted(),
            ) <= CarbonUnit::MAX,
        ensures
            match r {
                Ok(v) => self.years().contains_key(year as u64) && v == Self::year_supply(
                    self.years()[year as u64]@,
                    self.minted(),
                ),
                Err(e) => e == Message::TokenNotFound && !self.years().contains_key(year as u64),
            },
    {
        let list = match self.year_mapping.get(year as u64) {
            None => {
                return Err(Message::TokenNotFound);
            },
            Some(list) => list,
        };
        let ghost list0 = list@;
        let mut year_supply: CarbonUnit = 0;
        let mut j: usize = 0;
        while j < list.len()
            invariant
                self.wf(),
                list@ == list0,
                list0 == self.years()[year as u64]@,
                self.years().contains_key(year as u64),
                Self::year_supply(list0, self.minted()) <= CarbonUnit::MAX,
                j <= list0.len(),
                year_supply == Self::year_supply(list0.take(j as int), self.minted()),
            decreases list0.len() - j,
        {
            proof {
                Self::lemma_year_sums_prefix(list0, self.minted(), j as int + 1);
                assert(list0.take(j as int + 1).drop_last() =~= list0.take(j as int));
                assert(list0.take(j as int + 1).last() == list0[j as int]);
            }
            match self.minted_editions.get(list[j] as u64) {
                Some(detail) => {
                    year_supply = year_supply + detail.supply;
                },
                None => {},
            }
            j = j + 1;
        }
        proof {
            assert(list0.take(list0.len() as int) =~= list0);
        }
        Ok(year_supply)
    }

    /// The sum of `retired` over the year's editions. Fails with
    /// `TokenNotFound` exactly when the year has no editions.
    pub fn get_retired_by_year(&self, year: Year) -> (r: Result<CarbonUnit, Message>)
        requires
            self.wf(),
            self.years().contains_key(year as u64) ==> Self::year_retired(
                self.years()[year as u64]@,
                self.minted(),
            ) <= CarbonUnit::MAX,
        ensures
            match r {
                Ok(v) => self.years().contains_key(year as u64) && v == Self::year_retired(
                    self.years()[year as u64]@,
                    self.minted(),
                ),
                Err(e) => e == Message::TokenNotFound && !self.years().contains_key(year as u64),
            },
    {
        let list = match self.year_mapping.get(year as u64) {
            None => {
                return Err(Message::TokenNotFound);
            },
            Some(list) => list,
        };
        let ghost list0 = list@;
        let mut year_retired_supply: CarbonUnit = 0;
        let mut j: usize = 0;
        while j < list.len()
            invariant
                self.wf(),
                list@ == list0,
                list0 == self.years()[year as u64]@,
                self.years().contains_key(year as u64),
                Self::year_retired(list0, self.minted()) <= CarbonUnit::MAX,
                j <= list0.len(),
                year_retired_supply == Self::year_retired(list0.take(j as int), self.minted()),
            decreases list0.len() - j,
        {
            proof {
                Self::lemma_year_sums_prefix(list0, self.minted(), j as int + 1);
                assert(list0.take(j as int + 1).drop_last() =~= list0.take(j as int));
                assert(list0.take(j as int + 1).last() == list0[j as int]);
            }
            match self.minted_editions.get(list[j] as u64) {
                Some(detail) => {
                    year_retired_supply = year_retired_supply + detail.retired;
                },
                None => {},
            }
            j = j + 1;
        }
        proof {
            assert(list0.take(list0.len() as int) =~= list0);
        }
        Ok(year_retired_supply)
    }

    /// Every balance the account holds, each with its edition's metadata,
    /// in the balance map's order; empty when the account has no map.
    pub fn get_account_balances(&self, account_id: AccountId) -> (r: Vec<TokenBalanceDetail>)
        requires
            self.wf(),
        ensures
            !self.accounts().contains_key(account_id) ==> r@.len() == 0,
            self.accounts().contains_key(account_id) ==> {
                let kvs = self.accounts()[account_id].kvs();
                r@.len() == kvs.len() && (forall|i: int|
                    0 <= i < kvs.len() ==> (#[trigger] r@[i]).balance == kvs[i].1 && r@[i].balance
                        > 0 && self.minted().contains_key(kvs[i].0) && r@[i].detail
                        == self.minted()[kvs[i].0])
            },
    {
        let mut token_details: Vec<TokenBalanceDetail> = Vec::new();
        if let Some(bm) = self.balances.get(account_id) {
            let ghost kvs = bm.kvs();
            proof {
                assert(self.accounts()[account_id].wf());
            }
            let mut j: usize = 0;
            while j < bm.entries.len()
                invariant
                    self.wf(),
                    bm == self.accounts()[account_id],
                    self.accounts().contains_key(account_id),
                    bm.wf(),
                    bm.kvs() == kvs,
                    j <= kvs.len(),
                    token_details@.len() == j,
                    forall|i: int|
                        0 <= i < j ==> (#[trigger] token_details@[i]).balance == kvs[i].1
                            && token_details@[i].balance > 0 && self.minted().contains_key(
                            kvs[i].0,
                        ) && token_details@[i].detail == self.minted()[kvs[i].0],
                decreases kvs.len() - j,
            {
                proof {
                    Table::<CarbonUnit>::lemma_map_of_index(kvs, j as int);
                    assert(bm.m() == Table::<CarbonUnit>::map_of(kvs));
                    assert(self.accounts()[account_id].m().contains_key(kvs[j as int].0));
                    assert(self.minted().contains_key(kvs[j as int].0));
                }
                let token_id: u64 = bm.entries[j].0;
                let token_balance: CarbonUnit = bm.entries[j].1;
                match self.minted_editions.get(token_id) {
                    Some(detail) => {
                        token_details.push(
                            TokenBalanceDetail { detail: detail.clone(), balance: token_balance },
                        );
                    },
                    None => {
                        unreached::<()>();
                    },
                }
                j = j + 1;
            }
        }
        token_details
    }

    /// The account's total balance across all editions; zero when it has
    /// no balance map.
    pub fn get_account_total_balance(&self, account_id: AccountId) -> (r: CarbonUnit)
        requires
            self.wf(),
            self.account_total(account_id) <= CarbonUnit::MAX,
        ensures
            r == self.account_total(account_id),
    {
        let bm = match self.balances.get(account_id) {
            None => {
                return 0;
            },
            Some(bm) => bm,
        };
        let ghost kvs = bm.kvs();
        let mut total_balance: CarbonUnit = 0;
        let mut j: usize = 0;
        while j < bm.entries.len()
            invariant
                self.wf(),
                self.accounts().contains_key(account_id),
                bm == self.accounts()[account_id],
                bm.kvs() == kvs,
                Self::sum_values(kvs) <= CarbonUnit::MAX,
                j <= kvs.len(),
                total_balance == Self::sum_values(kvs.take(j as int)),
            decreases kvs.len() - j,
        {
            proof {
                Self::lemma_sum_values_prefix(kvs, j as int + 1);
                assert(kvs.take(j as int + 1).drop_last() =~= kvs.take(j as int));
                assert(kvs.take(j as int + 1).last() == kvs[j as int]);
            }
            total_balance = total_balance + bm.entries[j].1;
            j = j + 1;
        }
        proof {
            assert(kvs.take(kvs.len() as int) =~= kvs);
        }
        total_balance
    }

    /// The amount the account holds of one edition; zero — not an error —
    /// when the account has no entry or no map. Fails with `TokenNotFound`
    /// exactly when the edition itself was never minted.
    pub fn get_account_balance_by_id(&self, account_id: AccountId, token_id: TokenId) -> (r:
        Result<CarbonUnit, Message>)
        requires
            self.wf(),
        ensures
            match r {
                Ok(v) => self.minted().contains_key(token_id as u64) && v == self.held(
                    account_id,
                    token_id as u64,
                ),
                Err(e) => e == Message::TokenNotFound && !self.minted().contains_key(
                    token_id as u64,
                ),
            },
    {
        if !self.minted_editions.contains_key(token_id as u64) {
            return Err(Message::TokenNotFound);
        }
        proof {
            if self.accounts().contains_key(account_id) {
                assert(self.accounts()[account_id].wf());
            }
        }
        match self.balances.get(account_id) {
            None => Ok(0),
            Some(token_balances) => match token_balances.get(token_id as u64) {
                None => Ok(0),
                Some(token_balance) => Ok(*token_balance),
            },
        }
    }

    /// The account's aggregate balance across the year's editions; zero —
    /// not an error — when it holds none of them or has no map. Fails with
    /// `TokenNotFound` exactly when the year has no editions at all.
    pub fn get_account_balance_by_year(&self, account_id: AccountId, year: Year) -> (r: Result<
        CarbonUnit,
        Message,
    >)
        requires
            self.wf(),
            self.accounts().contains_key(account_id) && self.years().contains_key(year as u64)
                ==> Self::year_balance(
                self.years()[year as u64]@,
                self.accounts()[account_id].m(),
            ) <= CarbonUnit::MAX,
        ensures
            match r {
                Ok(v) => self.years().contains_key(year as u64) && v == (
                if self.accounts().contains_key(account_id) {
                    Self::year_balance(self.years()[year as u64]@, self.accounts()[account_id].m())
                } else {
                    0
                }),
                Err(e) => e == Message::TokenNotFound && !self.years().contains_key(year as u64),
            },
    {
        if !self.year_mapping.contains_key(year as u64) {
            return Err(Message::TokenNotFound);
        }
        let list = match self.year_mapping.get(year as u64) {
            Some(list) => list,
            None => unreached(),
        };
        let ghost list0 = list@;
        let bm = match self.balances.get(account_id) {
            None => {
                return Ok(0);
            },
            Some(bm) => bm,
        };
        proof {
            assert(bm.wf());
        }
        let mut total_year_token: CarbonUnit = 0;
        let mut j: usize = 0;
        while j < list.len()
            invariant
                self.wf(),
                list@ == list0,
                list0 == self.years()[year as u64]@,
                self.years().contains_key(year as u64),
                self.accounts().contains_key(account_id),
                bm == self.accounts()[account_id],
                bm.wf(),
                Self::year_balance(list0, bm.m()) <= CarbonUnit::MAX,
                j <= list0.len(),
                total_year_token == Self::year_balance(list0.take(j as int), bm.m()),
            decreases list0.len() - j,
        {
            proof {
                Self::lemma_year_balance_prefix(list0, bm.m(), j as int + 1);
                assert(list0.take(j as int + 1).drop_last() =~= list0.take(j as int));
                assert(list0.take(j as int + 1).last() == list0[j as int]);
            }
            match bm.get(list[j] as u64) {
                Some(token_balance) => {
                    total_year_token = total_year_token + *token_balance;
                },
                None => {},
            }
            j = j + 1;
        }
        proof {
            assert(list0.take(list0.len() as int) =~= list0);
        }
        Ok(total_year_token)
    }

    /// The position of the pending entry for the reference, if any.
    fn find_pending(&self, registry_id: &RegistryId) -> (r: Option<usize>)
        ensures
            match r {
                Some(i) => i < self.pending_mint_editions@.len()
                    && self.pending_mint_editions@[i as int].registry_id@ == registry_id@,
                None => forall|i: int|
                    0 <= i < self.pending_mint_editions@.len()
                        ==> (#[trigger] self.pending_mint_editions@[i]).registry_id@
                        != registry_id@,
            },
    {
        let mut i: usize = 0;
        while i < self.pending_mint_editions.len()
            invariant
                i <= self.pending_mint_editions@.len(),
                forall|j: int|
                    0 <= j < i ==> (#[trigger] self.pending_mint_editions@[j]).registry_id@
                        != registry_id@,
            decreases self.pending_mint_editions@.len() - i,
        {
            if self.pending_mint_editions[i].registry_id == *registry_id {
                return Some(i);
            }
            i = i + 1;
        }
        None
    }

    /// Files a mint request. Fails with `TokenMintRequestAlreadyPending`
    /// exactly when a request for the same registry reference is already
    /// pending; otherwise reserves the next edition id — which is spent
    /// even if the request is later denied — and stores the request,
    /// stamped with the given block number and timestamp.
    pub fn insert_pending_mint(
        &mut self,
        minter: AccountId,
        params: MintRequestParams,
        block_number: BlockNumber,
        timestamp: Timestamp,
    ) -> (r: Result<(), Message>)
        requires
            old(self).wf(),
            !old(self).pending().contains_key(params.registry_id@) ==> old(self).next_token_id
                < TokenId::MAX,
        ensures
            final(self).wf(),
            old(self).pending().contains_key(params.registry_id@) ==> r == Err::<(), Message>(
                Message::TokenMintRequestAlreadyPending,
            ) && *final(self) == *old(self),
            !old(self).pending().contains_key(params.registry_id@) ==> r == Ok::<(), Message>(())
                && final(self).pending() == old(self).pending().insert(
                params.registry_id@,
                (PendingMint {
                    detail: Detail {
                        id: old(self).next_token_id,
                        block_number: block_number,
                        timestamp: timestamp,
                        minter: minter,
                        supply: params.verified_carbon_unit,
                        retired: 0,
                        year: params.issuance_year,
                        registry_id: params.registry_id,
                    },
                    beneficiary: params.beneficiary,
                }),
            ) && final(self).next_token_id == old(self).next_token_id + 1
                && final(self).minted_editions == old(self).minted_editions
                && final(self).balances == old(self).balances && final(self).year_mapping
                == old(self).year_mapping && final(self).last_minted_token_id
                == old(self).last_minted_token_id,
    {
        proof {
            Self::lemma_pending_contains(self.pending_mint_editions@, params.registry_id@);
        }
        if self.find_pending(&params.registry_id).is_some() {
            return Err(Message::TokenMintRequestAlreadyPending);
        }
        let id = self.take_next_token_id();
        let registry_key = params.registry_id.clone();
        let detail = Detail {
            id: id,
            block_number: block_number,
            timestamp: timestamp,
            minter: minter,
            supply: params.verified_carbon_unit,
            retired: 0,
            year: params.issuance_year,
            registry_id: params.registry_id,
        };
        let entry = PendingEntry {
            registry_id: registry_key,
            pending: PendingMint { detail: detail, beneficiary: params.beneficiary },
        };
        self.pending_mint_editions.push(entry);
        proof {
            assert(self.pending_mint_editions@.drop_last() =~= old(self).pending_mint_editions@);
            assert(self.minted() == old(self).minted());
            assert(self.accounts() == old(self).accounts());
            assert(self.years() == old(self).years());
            assert(self.ids_below_counter());
            assert(self.pending_sound());
            assert(self.minted_sound());
            assert(self.balances_sound());
            assert(self.years_sound());
            assert(self.conserved());
        }
        Ok(())
    }

    /// Denies and discards the pending request for the reference,
    /// returning its minter for notification; the reserved edition id is
    /// never rolled back. Fails with `TokenMintRequestNotFound` exactly
    /// when no request is pending for the reference.
    pub fn deny_pending_mint(&mut self, registry_id: &RegistryId) -> (r: Result<
        AccountId,
        Message,
    >)
        requires
            old(self).wf(),
        ensures
            final(self).wf(),
            !old(self).pending().contains_key(registry_id@) ==> r == Err::<AccountId, Message>(
                Message::TokenMintRequestNotFound,
            ) && *final(self) == *old(self),
            old(self).pending().contains_key(registry_id@) ==> r == Ok::<AccountId, Message>(
                old(self).pending()[registry_id@].detail.minter,
            ) && final(self).pending() == old(self).pending().remove(registry_id@)
                && final(self).next_token_id == old(self).next_token_id
                && final(self).minted_editions == old(self).minted_editions
                && final(self).balances == old(self).balances && final(self).year_mapping
                == old(self).year_mapping && final(self).last_minted_token_id
                == old(self).last_minted_token_id,
    {
        proof {
            Self::lemma_pending_contains(self.pending_mint_editions@, registry_id@);
        }
        match self.find_pending(registry_id) {
            None => Err(Message::TokenMintRequestNotFound),
            Some(i) => {
                proof {
                    Self::lemma_pending_index(self.pending_mint_editions@, i as int);
                    Self::lemma_pending_remove(self.pending_mint_editions@, i as int);
                }
                let entry = self.pending_mint_editions.remove(i);
                proof {
                    Self::lemma_remove_entry_indices(old(self).pending_mint_editions@, i as int);
                    assert(self.balances == old(self).balances);
                    assert(self.minted() == old(self).minted());
                    assert(self.accounts() == old(self).accounts());
                    assert(self.years() == old(self).years());
                    assert(self.ids_below_counter());
                    Self::lemma_pending_sound_remove(*old(self), *self, i as int);
                    assert(self.pending_sound());
                    assert(self.minted_sound());
                    assert(self.balances_sound());
                    assert(self.years_sound());
                    assert(self.conserved());
                }
                Ok(entry.pending.detail.minter)
            },
        }
    }

    /// Approves the pending request for the reference: removes it,
    /// materializes the edition with `supply` equal to the verified amount
    /// and `retired` zero, credits the beneficiary with the full amount —
    /// nothing is stored for a zero amount: balance entries are always
    /// positive —,
    /// appends the edition to its issuance year's index, records it as the
    /// last minted edition, and returns `(minter, beneficiary, edition id,
    /// amount)` for notification. Fails with `TokenMintRequestNotFound`
    /// exactly when no request is pending for the reference.
    pub fn approve_pending_mint(&mut self, registry_id: &RegistryId) -> (r: Result<
        (AccountId, MintBeneficiaryAccount, TokenId, CarbonUnit),
        Message,
    >)
        requires
            old(self).wf(),
        ensures
            final(self).wf(),
            !old(self).pending().contains_key(registry_id@) ==> r == Err::<
                (AccountId, MintBeneficiaryAccount, TokenId, CarbonUnit),
                Message,
            >(Message::TokenMintRequestNotFound) && *final(self) == *old(self),
            old(self).pending().contains_key(registry_id@) ==> {
                let pm = old(self).pending()[registry_id@];
                let t = pm.detail.id as u64;
                &&& r == Ok::<(AccountId, MintBeneficiaryAccount, TokenId, CarbonUnit), Message>(
                    (pm.detail.minter, pm.beneficiary, pm.detail.id, pm.detail.supply),
                )
                &&& final(self).pending() == old(self).pending().remove(registry_id@)
                &&& final(self).minted() == old(self).minted().insert(t, pm.detail)
                &&& final(self).last_minted_token_id == Some(pm.detail.id)
                &&& final(self).next_token_id == old(self).next_token_id
                &&& pm.detail.supply == 0 ==> final(self).accounts() == old(self).accounts()
                &&& pm.detail.supply != 0 ==> {
                    &&& final(self).accounts().contains_key(pm.beneficiary)
                    &&& final(self).accounts()[pm.beneficiary].m() == if old(self).accounts().contains_key(pm.beneficiary) {
                        old(self).accounts()[pm.beneficiary].m().insert(t, pm.detail.supply)
                    } else {
                        Map::<u64, CarbonUnit>::empty().insert(t, pm.detail.supply)
                    }
                    &&& forall|a: AccountId|
                        a != pm.beneficiary && old(self).accounts().contains_key(a) ==> final(self).accounts().contains_key(a) && final(self).accounts()[a] == old(self).accounts()[a]
                    &&& forall|a: AccountId|
                        a != pm.beneficiary && !old(self).accounts().contains_key(a) ==> !final(self).accounts().contains_key(a)
                }
                &&& final(self).years().contains_key(pm.detail.year as u64)
                &&& final(self).years()[pm.detail.year as u64]@ == if old(self).years().contains_key(pm.detail.year as u64) {
                    old(self).years()[pm.detail.year as u64]@.push(pm.detail.id)
                } else {
                    seq![pm.detail.id]
                }
                &&& forall|y: u64|
                    y != pm.detail.year as u64 && old(self).years().contains_key(y) ==> final(self).years().contains_key(y) && final(self).years()[y] == old(self).years()[y]
                &&& forall|y: u64|
                    y != pm.detail.year as u64 && !old(self).years().contains_key(y) ==> !final(self).years().contains_key(y)
            },
    {
        proof {
            Self::lemma_pending_contains(self.pending_mint_editions@, registry_id@);
        }
        let i = match self.find_pending(registry_id) {
            None => {
                return Err(Message::TokenMintRequestNotFound);
            },
            Some(i) => i,
        };
        proof {
            Self::lemma_pending_index(self.pending_mint_editions@, i as int);
            Self::lemma_pending_remove(self.pending_mint_editions@, i as int);
        }
        let ghost d = self.pending_mint_editions@[i as int].pending.detail;
        let entry = self.pending_mint_editions.remove(i);
        proof {
            Self::lemma_remove_entry_indices(old(self).pending_mint_editions@, i as int);
        }
        let minter = entry.pending.detail.minter;
        let token_id = entry.pending.detail.id;
        let token_year = entry.pending.detail.year;
        let token_supply = entry.pending.detail.supply;
        let beneficiary = entry.pending.beneficiary;
        let ghost t = token_id as u64;
        proof {
            assert(self.minted() == old(self).minted());
            assert(self.accounts() == old(self).accounts());
            assert(self.years() == old(self).years());
            assert(d.retired == 0);
            assert(!old(self).minted().contains_key(t));
        }
        self.minted_editions.insert(token_id as u64, entry.pending.detail);
        proof {
            assert(self.minted() =~= old(self).minted().insert(t, d));
            assert(self.accounts() == old(self).accounts());
            assert(self.years() == old(self).years());
        }
        if token_supply != 0 {
            if !self.balances.contains_key(beneficiary) {
                let fresh: BalanceMap = Table::new();
                self.balances.insert(beneficiary, fresh);
                proof {
                    assert(self.accounts()[beneficiary] == fresh);
                }
            }
            let ghost pre_credit = self.balances.kvs();
            let ghost pre_accounts = self.accounts();
            proof {
                if old(self).accounts().contains_key(beneficiary) {
                    assert(pre_accounts[beneficiary] == old(self).accounts()[beneficiary]);
                }
                assert(pre_accounts[beneficiary].wf());
                assert(!pre_accounts[beneficiary].m().contains_key(t)) by {
                    if old(self).accounts().contains_key(beneficiary)
                        && pre_accounts[beneficiary].m().contains_key(t) {
                        assert(old(self).minted().contains_key(t));
                    }
                }
            }
            let mut bm: BalanceMap = match self.balances.remove(beneficiary) {
                Some(b) => b,
                None => unreached(),
            };
            let ghost bm0 = bm;
            bm.insert(token_id as u64, token_supply);
            self.balances.insert(beneficiary, bm);
            proof {
                assert(bm0 == pre_accounts[beneficiary]);
                assert(bm.m() == bm0.m().insert(t, token_supply));
                let i0 = choose|i0: int|
                    0 <= i0 < pre_credit.len() && pre_credit[i0].0 == beneficiary
                        && self.balances.kvs() == pre_credit.remove(i0).push((beneficiary, bm));
                assert forall|u: u64|
                    #![trigger Self::sum_held(self.balances.kvs(), u)]
                    Self::sum_held(self.balances.kvs(), u) == Self::sum_held(
                    old(self).balances.kvs(), u) + (if u == t {
                    token_supply as int
                } else {
                    0
                }) by {
                    Self::lemma_sum_held_remove(pre_credit, i0, u);
                    Self::lemma_sum_held_push(pre_credit.remove(i0), (beneficiary, bm), u);
                    Table::<BalanceMap>::lemma_map_of_index(pre_credit, i0);
                    if old(self).balances.kvs() != pre_credit {
                        assert(pre_credit == old(self).balances.kvs().push(
                            (beneficiary, pre_credit.last().1),
                        ));
                        Self::lemma_sum_held_push(
                            old(self).balances.kvs(),
                            (beneficiary, pre_credit.last().1),
                            u,
                        );
                    }
                    if u != t {
                        assert(Self::entry_amount(bm, u) == Self::entry_amount(bm0, u));
                    }
                }
                assert(self.accounts() =~= old(self).accounts().insert(beneficiary, bm));
                assert(self.accounts()[beneficiary].m() == (
                if old(self).accounts().contains_key(beneficiary) {
                    old(self).accounts()[beneficiary].m().insert(t, token_supply)
                } else {
                    Map::<u64, CarbonUnit>::empty().insert(t, token_supply)
                }));
            }
        } else {
            proof {
                assert(self.accounts() == old(self).accounts());
                assert forall|u: u64|
                    #![trigger Self::sum_held(self.balances.kvs(), u)]
                    Self::sum_held(self.balances.kvs(), u) == Self::sum_held(
                    old(self).balances.kvs(), u) + (if u == t {
                    token_supply as int
                } else {
                    0
                }) by {
                    assert(self.balances.kvs() == old(self).balances.kvs());
                }
            }
        }
        let ghost post_credit = self.balances.kvs();
        proof {
            assert forall|u: u64|
                #![trigger Self::sum_held(post_credit, u)]
                Self::sum_held(post_credit, u) == Self::sum_held(old(self).balances.kvs(), u) + (
            if u == t {
                token_supply as int
            } else {
                0
            }) by {
                assert(Self::sum_held(self.balances.kvs(), u) == Self::sum_held(
                    old(self).balances.kvs(), u) + (if u == t {
                    token_supply as int
                } else {
                    0
                }));
            }
        }
        let ghost pre_years = self.years();
        let mut year_list: Vec<TokenId> = match self.year_mapping.remove(token_year as u64) {
            Some(v) => v,
            None => Vec::new(),
        };
        let ghost old_year_list = year_list@;
        year_list.push(token_id);
        self.year_mapping.insert(token_year as u64, year_list);
        self.last_minted_token_id = Some(token_id);
        proof {
            let y = token_year as u64;
            assert(self.balances.kvs() == post_credit);
            assert(self.minted() == old(self).minted().insert(t, d));
            assert(self.years() =~= old(self).years().insert(y, self.years()[y]));
            assert(self.years()[y]@ == old_year_list.push(token_id));
            assert(old(self).years().contains_key(y) ==> old_year_list == old(self).years()[y]@);
            assert(!old(self).years().contains_key(y) ==> old_year_list
                == Seq::<TokenId>::empty());
            assert(self.ids_below_counter());
            assert(self.pending_sound());
            assert(self.minted_sound());
            assert forall|a: u64|
                self.accounts().contains_key(a) implies (#[trigger] self.accounts()[a]).wf()
                && (forall|u: u64|
                #[trigger] self.accounts()[a].m().contains_key(u)
                    ==> self.minted().contains_key(u) && self.accounts()[a].m()[u] > 0) by {
                if token_supply != 0 && a == beneficiary {
                    assert forall|u: u64|
                        #[trigger] self.accounts()[a].m().contains_key(u) implies self.minted(
                    ).contains_key(u) && self.accounts()[a].m()[u] > 0 by {
                        if u != t {
                            assert(old(self).accounts().contains_key(beneficiary));
                            assert(old(self).accounts()[beneficiary].m().contains_key(u));
                            assert(self.accounts()[a].m()[u] == old(self).accounts()[beneficiary].m()[u]);
                        } else {
                            assert(self.accounts()[a].m()[u] == token_supply);
                        }
                    }
                } else {
                    assert(self.accounts()[a] == old(self).accounts()[a]);
                }
            }
            assert(self.balances_sound());
            assert forall|y2: u64, j: int|
                self.years().contains_key(y2) && 0 <= j < self.years()[y2]@.len() implies {
                    let u = #[trigger] self.years()[y2]@[j];
                    self.minted().contains_key(u as u64) && self.minted()[u as u64].year as u64
                        == y2
                } by {
                if y2 == y {
                    if j < self.years()[y2]@.len() - 1 {
                        let u = old(self).years()[y2]@[j];
                        assert(old(self).minted().contains_key(u as u64));
                        assert(u as u64 != t);
                    } else {
                        assert(self.years()[y2]@[j] == token_id);
                    }
                } else {
                    assert(self.years()[y2] == old(self).years()[y2]);
                    let u = self.years()[y2]@[j];
                    assert(old(self).minted().contains_key(u as u64));
                    assert(u as u64 != t);
                }
            }
            assert forall|y2: u64, j: int, k: int|
                self.years().contains_key(y2) && 0 <= j < k < self.years()[y2]@.len() implies #[trigger] self.years()[y2]@[j]
                    != #[trigger] self.years()[y2]@[k] by {
                if y2 == y {
                    if k == self.years()[y2]@.len() - 1 {
                        let u = old_year_list[j];
                        if old(self).years().contains_key(y) {
                            assert(old(self).minted().contains_key(u as u64));
                            assert(u as u64 != t);
                            assert(u != token_id);
                        }
                    }
                } else {
                    assert(self.years()[y2] == old(self).years()[y2]);
                }
            }
            assert(self.years_sound());
            assert forall|u: u64|
                #![trigger Self::sum_held(self.balances.kvs(), u)]
                Self::sum_held(self.balances.kvs(), u) == (if self.minted().contains_key(u) {
                    self.minted()[u].supply + self.minted()[u].retired
                } else {
                    0
                }) by {
                assert(Self::sum_held(post_credit, u) == Self::sum_held(
                    old(self).balances.kvs(),
                    u,
                ) + (if u == t {
                    token_supply as int
                } else {
                    0
                }));
                if u != t {
                    assert(self.minted().contains_key(u) ==> self.minted()[u] == old(self).minted()[u]);
                }
            }
            assert(self.conserved());
        }
        Ok((minter, beneficiary, token_id, token_supply))
    }
}

} // verus!
