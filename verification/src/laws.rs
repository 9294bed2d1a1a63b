//! The ledger's governing laws, stated over the components' models and
//! proved once and for all. Each law speaks about every state and input
//! its premises admit; the premises hold only what the operations' own
//! contracts give.

use crate::custodian::{Collections, Detail as CustodianDetail};
use crate::token::{Detail, PendingMint, Tracker};
use crate::{AccountId, CarbonUnit};
use vstd::prelude::*;

verus! {

/// Law: an account just admitted is admitted; every other account's
/// standing is untouched.
pub proof fn law_admit_then_admitted(
    pre: Collections,
    post: Collections,
    id: AccountId,
    record: CustodianDetail,
)
    requires
        post.records() == pre.records().insert(id, record),
    ensures
        post.records().contains_key(id),
        forall|a: AccountId|
            a != id ==> #[trigger] post.records().contains_key(a) == pre.records().contains_key(
                a,
            ),
{
}

/// Law: an account just revoked is no longer admitted; every other
/// account's standing is untouched.
pub proof fn law_revoke_then_not_admitted(pre: Collections, post: Collections, id: AccountId)
    requires
        post.records() == pre.records().remove(id),
    ensures
        !post.records().contains_key(id),
        forall|a: AccountId|
            a != id ==> #[trigger] post.records().contains_key(a) == pre.records().contains_key(
                a,
            ),
{
}

/// Law: conservation. In every well-formed ledger, each minted edition's
/// balances across all accounts — the blackhole included — sum exactly to
/// its supply plus its retired amount: the amount minted at approval.
pub proof fn law_edition_conservation(t: Tracker, token_id: u64)
    requires
        t.wf(),
        t.minted().contains_key(token_id),
    ensures
        Tracker::sum_held(t.balances.kvs(), token_id) == t.minted()[token_id].supply
            + t.minted()[token_id].retired,
{
}

/// Law: nobody holds an edition that was never minted.
pub proof fn law_unminted_is_unheld(t: Tracker, token_id: u64)
    requires
        t.wf(),
        !t.minted().contains_key(token_id),
    ensures
        Tracker::sum_held(t.balances.kvs(), token_id) == 0,
{
}

/// Law: the total supply is a function of the edition table alone, so any
/// operation that leaves the editions untouched — every transfer does —
/// leaves the total supply, the total retired amount, and each edition's
/// supply unchanged.
pub proof fn law_transfers_leave_supply(pre: Tracker, post: Tracker)
    requires
        post.minted_editions == pre.minted_editions,
    ensures
        post.total_supply() == pre.total_supply(),
        post.total_retired() == pre.total_retired(),
        post.minted() == pre.minted(),
{
}

/// Law: a transfer of exactly the held amount removes the payer's entry —
/// a later balance query answers zero, not an error — and hands the full
/// amount to the target.
pub proof fn law_exact_transfer_removes_entry(
    pre: Tracker,
    post: Tracker,
    from: AccountId,
    to: AccountId,
    token_id: u64,
    amount: CarbonUnit,
)
    requires
        pre.wf(),
        from != to,
        pre.accounts().contains_key(from),
        pre.accounts()[from].m().contains_key(token_id),
        pre.accounts()[from].m()[token_id] == amount,
        Tracker::transferred_by_id(pre, post, from, to, token_id, amount),
    ensures
        !post.accounts()[from].m().contains_key(token_id),
        post.held(from, token_id) == 0,
        post.held(to, token_id) == pre.held(to, token_id) + amount,
{
    assert(post.accounts().contains_key(from));
    assert(post.accounts().contains_key(to));
    let kvs = pre.balances.kvs();
    if pre.accounts().contains_key(to) {
        crate::table::Table::<crate::token::BalanceMap>::lemma_map_of_contains(kvs, from);
        crate::table::Table::<crate::token::BalanceMap>::lemma_map_of_contains(kvs, to);
        let i_f = choose|i: int| 0 <= i < kvs.len() && kvs[i].0 == from;
        let i_t = choose|i: int| 0 <= i < kvs.len() && kvs[i].0 == to;
        crate::table::Table::<crate::token::BalanceMap>::lemma_map_of_index(kvs, i_f);
        crate::table::Table::<crate::token::BalanceMap>::lemma_map_of_index(kvs, i_t);
        Tracker::lemma_sum_held_pair(kvs, i_f, i_t, token_id);
        assert(pre.minted().contains_key(token_id));
    } else {
        assert(pre.held(to, token_id) == 0);
    }
    assert(pre.held(to, token_id) + amount <= CarbonUnit::MAX);
}

/// Law: a successful retirement moves the amount from `supply` to
/// `retired` and nothing else: their sum — the amount minted at approval —
/// never changes, and every other edition keeps both figures.
pub proof fn law_retirement_shifts_supply(
    pre: Tracker,
    post: Tracker,
    token_id: u64,
    amount: CarbonUnit,
    updated: Detail,
)
    requires
        pre.minted().contains_key(token_id),
        amount <= pre.minted()[token_id].supply,
        updated == (Detail {
            supply: (pre.minted()[token_id].supply - amount) as CarbonUnit,
            retired: (pre.minted()[token_id].retired + amount) as CarbonUnit,
            ..pre.minted()[token_id]
        }),
        pre.minted()[token_id].retired + amount <= CarbonUnit::MAX,
        post.minted() == pre.minted().insert(token_id, updated),
    ensures
        post.minted()[token_id].supply == pre.minted()[token_id].supply - amount,
        post.minted()[token_id].retired == pre.minted()[token_id].retired + amount,
        post.minted()[token_id].supply + post.minted()[token_id].retired == pre.minted()[
            token_id
        ].supply + pre.minted()[token_id].retired,
        forall|u: u64|
            u != token_id && pre.minted().contains_key(u) ==> #[trigger] post.minted()[u]
                == pre.minted()[u],
{
}

/// Law: when the first of the year's editions the payer holds anything of
/// covers the requested amount by itself, the year walk moves exactly the
/// requested amount from that single edition — oldest first, nothing else
/// touched. (In a well-formed ledger "holds anything of" and "holds a
/// positive balance of" coincide: stored entries are always positive.)
pub proof fn law_year_walk_first_covering(
    list: Seq<crate::TokenId>,
    bal: Map<u64, CarbonUnit>,
    amount: CarbonUnit,
    k: int,
)
    requires
        0 < amount,
        0 <= k < list.len(),
        forall|p: int| 0 <= p < k ==> !bal.contains_key((#[trigger] list[p]) as u64),
        bal.contains_key(list[k] as u64),
        bal[list[k] as u64] >= amount,
    ensures
        Tracker::year_walk(list, bal, amount) == seq![
            crate::token::TokenEdition { id: list[k], amount },
        ],
    decreases k,
{
    if k == 0 {
        let t = list[0] as u64;
        let tail = Tracker::year_walk(
            list.skip(1),
            bal.insert(t, (bal[t] - amount) as CarbonUnit),
            0,
        );
        assert(tail == Seq::<crate::token::TokenEdition>::empty());
        assert(Tracker::year_walk(list, bal, amount) =~= seq![
            crate::token::TokenEdition { id: list[0], amount },
        ]);
    } else {
        assert(!bal.contains_key(list[0] as u64));
        assert(forall|p: int| 0 <= p < list.skip(1).len() ==> list.skip(1)[p] == list[p + 1]);
        law_year_walk_first_covering(list.skip(1), bal, amount, k - 1);
        assert(list.skip(1)[k - 1] == list[k]);
    }
}

/// Law: an approved request mints exactly what was verified — the new
/// edition starts with `supply` equal to the verified amount and nothing
/// retired, and the beneficiary holds that full amount; a zero-amount
/// approval credits nothing, so the beneficiary holds (and everyone
/// together holds) exactly zero of it.
pub proof fn law_approval_mints_exact(
    pre: Tracker,
    post: Tracker,
    registry_id: Seq<char>,
    pm: PendingMint,
)
    requires
        pre.wf(),
        post.wf(),
        pre.pending().contains_key(registry_id),
        pm == pre.pending()[registry_id],
        post.minted() == pre.minted().insert(pm.detail.id as u64, pm.detail),
        pm.detail.supply == 0 ==> post.accounts() == pre.accounts(),
        pm.detail.supply != 0 ==> post.accounts().contains_key(pm.beneficiary)
            && post.accounts()[pm.beneficiary].m() == (if pre.accounts().contains_key(
            pm.beneficiary,
        ) {
            pre.accounts()[pm.beneficiary].m().insert(pm.detail.id as u64, pm.detail.supply)
        } else {
            Map::<u64, CarbonUnit>::empty().insert(pm.detail.id as u64, pm.detail.supply)
        }),
    ensures
        post.minted()[pm.detail.id as u64].retired == 0,
        post.held(pm.beneficiary, pm.detail.id as u64) == pm.detail.supply,
        Tracker::sum_held(post.balances.kvs(), pm.detail.id as u64) == pm.detail.supply,
{
    Tracker::lemma_pending_contains(pre.pending_mint_editions@, registry_id);
    let i = choose|i: int|
        0 <= i < pre.pending_mint_editions@.len() && (#[trigger] pre.pending_mint_editions@[i]).registry_id@
            == registry_id;
    assert(pre.pending_mint_editions@[i].pending.detail.retired == 0);
    Tracker::lemma_pending_index(pre.pending_mint_editions@, i);
    assert(pm.detail.retired == 0);
    let t = pm.detail.id as u64;
    if pm.detail.supply == 0 {
        assert(!pre.minted().contains_key(t));
        if pre.accounts().contains_key(pm.beneficiary) && pre.accounts()[pm.beneficiary].m(
        ).contains_key(t) {
            assert(pre.minted().contains_key(t));
        }
        assert(post.held(pm.beneficiary, t) == 0);
    }
}

} // verus!
