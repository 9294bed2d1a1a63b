use carbon_ledger::custodian::{AddParams, Collections};
use carbon_ledger::retirement::Book;
use carbon_ledger::token::{MintRequestParams, TokenBalanceDetail, TokenEdition, Tracker};
use carbon_ledger::{get_blackhole_address, OperationError};

fn request(tracker: &mut Tracker, minter: u64, registry: &str, amount: u64, year: u16, to: u64) {
    let params = MintRequestParams {
        registry_id: String::from(registry),
        verified_carbon_unit: amount,
        issuance_year: year,
        beneficiary: to,
    };
    tracker.insert_pending_mint(minter, params, 1, 1000).unwrap();
}

fn mint(tracker: &mut Tracker, minter: u64, registry: &str, amount: u64, year: u16, to: u64) -> u32 {
    request(tracker, minter, registry, amount, year, to);
    let (_, _, token_id, _) = tracker.approve_pending_mint(&String::from(registry)).unwrap();
    token_id
}

#[test]
fn admit_then_admitted() {
    let mut reg = Collections::new();
    assert!(!reg.contains(7));
    reg.add(AddParams { id: 7, alias: String::from("acme") }, 3, 30).unwrap();
    assert!(reg.contains(7));
}

#[test]
fn second_admit_fails() {
    let mut reg = Collections::new();
    reg.add(AddParams { id: 7, alias: String::from("acme") }, 3, 30).unwrap();
    let again = reg.add(AddParams { id: 7, alias: String::from("acme two") }, 4, 40);
    assert_eq!(again, Err(OperationError::CustodianAlreadyRegistered));
    assert_eq!(reg.list().len(), 1);
}

#[test]
fn revoke_then_not_admitted() {
    let mut reg = Collections::new();
    reg.add(AddParams { id: 7, alias: String::from("acme") }, 3, 30).unwrap();
    reg.remove(7).unwrap();
    assert!(!reg.contains(7));
}

#[test]
fn revoke_unknown_fails() {
    let mut reg = Collections::new();
    assert_eq!(reg.remove(9), Err(OperationError::CustodianNotFound));
}

#[test]
fn list_reports_all_records() {
    let mut reg = Collections::new();
    reg.add(AddParams { id: 1, alias: String::from("one") }, 1, 10).unwrap();
    reg.add(AddParams { id: 2, alias: String::from("two") }, 2, 20).unwrap();
    let records = reg.list();
    assert_eq!(records.len(), 2);
    assert_eq!(records[0].id, 1);
    assert_eq!(records[0].alias, "one");
    assert_eq!(records[1].id, 2);
    assert_eq!(records[1].block_number, 2);
    assert_eq!(records[1].timestamp, 20);
}

#[test]
fn fresh_request_succeeds_second_pending_fails() {
    let mut tracker = Tracker::new();
    request(&mut tracker, 5, "REG1", 100, 2023, 8);
    let params = MintRequestParams {
        registry_id: String::from("REG1"),
        verified_carbon_unit: 50,
        issuance_year: 2023,
        beneficiary: 8,
    };
    let again = tracker.insert_pending_mint(5, params, 2, 2000);
    assert_eq!(again, Err(OperationError::TokenMintRequestAlreadyPending));
}

#[test]
fn approve_credits_full_amount() {
    let mut tracker = Tracker::new();
    request(&mut tracker, 5, "REG1", 100, 2023, 8);
    let (minter, beneficiary, token_id, amount) =
        tracker.approve_pending_mint(&String::from("REG1")).unwrap();
    assert_eq!((minter, beneficiary, token_id, amount), (5, 8, 0, 100));
    assert_eq!(tracker.get_account_balance_by_id(8, 0), Ok(100));
    assert_eq!(tracker.get_supply_by_id(0), Ok(100));
    assert_eq!(tracker.get_retired_by_id(0), Ok(0));
}

#[test]
fn approve_unknown_reference_fails() {
    let mut tracker = Tracker::new();
    let r = tracker.approve_pending_mint(&String::from("NOPE"));
    assert!(matches!(r, Err(OperationError::TokenMintRequestNotFound)));
    assert_eq!(
        tracker.deny_pending_mint(&String::from("NOPE")),
        Err(OperationError::TokenMintRequestNotFound)
    );
}

#[test]
fn resolved_reference_can_be_resubmitted() {
    let mut tracker = Tracker::new();
    mint(&mut tracker, 5, "REG1", 100, 2023, 8);
    // uniqueness is enforced against pending requests only; a resolved
    // reference may be submitted and approved again
    let second = mint(&mut tracker, 5, "REG1", 40, 2024, 8);
    assert_eq!(second, 1);
}

#[test]
fn denied_request_leaves_id_gap() {
    let mut tracker = Tracker::new();
    request(&mut tracker, 5, "REG1", 100, 2023, 8);
    let minter = tracker.deny_pending_mint(&String::from("REG1")).unwrap();
    assert_eq!(minter, 5);
    assert!(matches!(
        tracker.get_supply_by_id(0),
        Err(OperationError::TokenNotFound)
    ));
    let next = mint(&mut tracker, 5, "REG2", 10, 2023, 8);
    assert_eq!(next, 1);
}

#[test]
fn transfer_zero_always_fails() {
    let mut tracker = Tracker::new();
    let t = mint(&mut tracker, 5, "REG1", 100, 2023, 8);
    assert_eq!(
        tracker.transfer_token_by_id(8, 9, t, 0),
        Err(OperationError::CannotTransferZeroCarbonUnit)
    );
    assert_eq!(
        tracker.transfer_token_by_year(8, 9, 2023, 0),
        Err(OperationError::CannotTransferZeroCarbonUnit)
    );
    assert_eq!(
        tracker.transfer_token_all(9, 8),
        Err(OperationError::CannotTransferZeroCarbonUnit)
    );
}

#[test]
fn transfer_more_than_held_fails() {
    let mut tracker = Tracker::new();
    let t = mint(&mut tracker, 5, "REG1", 100, 2023, 8);
    assert_eq!(
        tracker.transfer_token_by_id(8, 9, t, 101),
        Err(OperationError::InsufficientCarbonUnit)
    );
    assert_eq!(tracker.get_account_balance_by_id(8, t), Ok(100));
}

#[test]
fn transfer_unknown_edition_fails() {
    let mut tracker = Tracker::new();
    mint(&mut tracker, 5, "REG1", 100, 2023, 8);
    assert_eq!(
        tracker.transfer_token_by_id(8, 9, 77, 10),
        Err(OperationError::TokenNotFound)
    );
}

#[test]
fn exact_transfer_removes_entry() {
    let mut tracker = Tracker::new();
    let t = mint(&mut tracker, 5, "REG1", 100, 2023, 8);
    let moved = tracker.transfer_token_by_id(8, 9, t, 100).unwrap();
    assert_eq!(moved, TokenEdition { id: t, amount: 100 });
    // the drained entry is removed: the query answers zero, not an error
    assert_eq!(tracker.get_account_balance_by_id(8, t), Ok(0));
    assert_eq!(tracker.get_account_balance_by_id(9, t), Ok(100));
    assert_eq!(tracker.get_account_balances(8).len(), 0);
}

#[test]
fn transfers_leave_total_supply() {
    let mut tracker = Tracker::new();
    let t = mint(&mut tracker, 5, "REG1", 100, 2023, 8);
    assert_eq!(tracker.get_total_supply(), 100);
    tracker.transfer_token_by_id(8, 9, t, 40).unwrap();
    assert_eq!(tracker.get_total_supply(), 100);
    assert_eq!(tracker.get_total_retired(), 0);
    assert_eq!(tracker.get_account_balance_by_id(8, t), Ok(60));
    assert_eq!(tracker.get_account_balance_by_id(9, t), Ok(40));
}

#[test]
fn transfer_all_moves_every_entry() {
    let mut tracker = Tracker::new();
    let t1 = mint(&mut tracker, 5, "REG1", 30, 2023, 8);
    let t2 = mint(&mut tracker, 5, "REG2", 70, 2024, 8);
    let moved = tracker.transfer_token_all(8, 9).unwrap();
    assert_eq!(moved.len(), 2);
    assert_eq!(moved[0], TokenEdition { id: t1, amount: 30 });
    assert_eq!(moved[1], TokenEdition { id: t2, amount: 70 });
    assert_eq!(tracker.get_account_total_balance(8), 0);
    assert_eq!(tracker.get_account_total_balance(9), 100);
    // the drained account keeps an (empty) balance map, so a second sweep
    // still reports a zero balance
    assert_eq!(
        tracker.transfer_token_all(8, 9),
        Err(OperationError::CannotTransferZeroCarbonUnit)
    );
}

#[test]
fn transfer_by_year_single_edition() {
    let mut tracker = Tracker::new();
    let t = mint(&mut tracker, 5, "REG1", 100, 2023, 8);
    let moved = tracker.transfer_token_by_year(8, 9, 2023, 60).unwrap();
    assert_eq!(moved, vec![TokenEdition { id: t, amount: 60 }]);
    assert_eq!(tracker.get_account_balance_by_id(8, t), Ok(40));
    assert_eq!(tracker.get_account_balance_by_id(9, t), Ok(60));
}

#[test]
fn transfer_by_year_unknown_year_fails() {
    let mut tracker = Tracker::new();
    mint(&mut tracker, 5, "REG1", 100, 2023, 8);
    assert_eq!(
        tracker.transfer_token_by_year(8, 9, 1999, 10),
        Err(OperationError::TokenNotFound)
    );
}

#[test]
fn transfer_by_year_insufficient_aggregate_fails() {
    let mut tracker = Tracker::new();
    mint(&mut tracker, 5, "REG1", 30, 2023, 8);
    mint(&mut tracker, 5, "REG2", 20, 2023, 8);
    assert_eq!(
        tracker.transfer_token_by_year(8, 9, 2023, 51),
        Err(OperationError::InsufficientCarbonUnit)
    );
}

#[test]
fn transfer_by_year_drain_walk_overshoots() {
    // the ledger decrements the amount still owed only after the drained
    // entry was zeroed, so draining never reduces it: every edition of the
    // year gets drained until one alone covers the remainder
    let mut tracker = Tracker::new();
    let t1 = mint(&mut tracker, 5, "REG1", 30, 2023, 8);
    let t2 = mint(&mut tracker, 5, "REG2", 30, 2023, 8);
    let t3 = mint(&mut tracker, 5, "REG3", 50, 2023, 8);
    let moved = tracker.transfer_token_by_year(8, 9, 2023, 60).unwrap();
    assert_eq!(
        moved,
        vec![
            TokenEdition { id: t1, amount: 30 },
            TokenEdition { id: t2, amount: 30 },
            TokenEdition { id: t3, amount: 50 },
        ]
    );
    assert_eq!(tracker.get_account_total_balance(8), 0);
    assert_eq!(tracker.get_account_total_balance(9), 110);
    assert_eq!(tracker.get_total_supply(), 110);
}

#[test]
fn transfer_by_year_stops_when_remainder_covered() {
    let mut tracker = Tracker::new();
    let t1 = mint(&mut tracker, 5, "REG1", 30, 2023, 8);
    let t2 = mint(&mut tracker, 5, "REG2", 50, 2023, 8);
    let t3 = mint(&mut tracker, 5, "REG3", 40, 2023, 8);
    let moved = tracker.transfer_token_by_year(8, 9, 2023, 40).unwrap();
    assert_eq!(
        moved,
        vec![
            TokenEdition { id: t1, amount: 30 },
            TokenEdition { id: t2, amount: 40 },
        ]
    );
    assert_eq!(tracker.get_account_balance_by_id(8, t2), Ok(10));
    assert_eq!(tracker.get_account_balance_by_id(8, t3), Ok(40));
}

#[test]
fn compounded_transfer_all_or_nothing() {
    let mut tracker = Tracker::new();
    let t1 = mint(&mut tracker, 5, "REG1", 30, 2023, 8);
    let t2 = mint(&mut tracker, 5, "REG2", 70, 2024, 8);
    let bundle = vec![
        TokenEdition { id: t1, amount: 10 },
        TokenEdition { id: t2, amount: 70 },
    ];
    tracker.transfer_token_compounded(8, 9, &bundle).unwrap();
    assert_eq!(tracker.get_account_balance_by_id(8, t1), Ok(20));
    assert_eq!(tracker.get_account_balance_by_id(9, t2), Ok(70));
}

#[test]
fn compounded_validates_before_moving() {
    let mut tracker = Tracker::new();
    let t1 = mint(&mut tracker, 5, "REG1", 30, 2023, 8);
    let over = vec![
        TokenEdition { id: t1, amount: 10 },
        TokenEdition { id: t1, amount: 31 },
    ];
    assert_eq!(
        tracker.transfer_token_compounded(8, 9, &over),
        Err(OperationError::InsufficientCarbonUnit)
    );
    // the first pass rejected the bundle outright: nothing moved
    assert_eq!(tracker.get_account_balance_by_id(8, t1), Ok(30));

    let zero = vec![TokenEdition { id: t1, amount: 0 }];
    assert_eq!(
        tracker.transfer_token_compounded(8, 9, &zero),
        Err(OperationError::CannotTransferZeroCarbonUnit)
    );
    let unknown = vec![TokenEdition { id: 77, amount: 1 }];
    assert_eq!(
        tracker.transfer_token_compounded(8, 9, &unknown),
        Err(OperationError::TokenNotFound)
    );
}

#[test]
fn compounded_duplicate_pair_fails_mid_pass() {
    // both pairs alone pass validation, but together they exhaust the
    // balance: the second application fails and the first stays applied
    let mut tracker = Tracker::new();
    let t1 = mint(&mut tracker, 5, "REG1", 30, 2023, 8);
    let dup = vec![
        TokenEdition { id: t1, amount: 20 },
        TokenEdition { id: t1, amount: 20 },
    ];
    assert_eq!(
        tracker.transfer_token_compounded(8, 9, &dup),
        Err(OperationError::InsufficientCarbonUnit)
    );
    assert_eq!(tracker.get_account_balance_by_id(8, t1), Ok(10));
    assert_eq!(tracker.get_account_balance_by_id(9, t1), Ok(20));
}

#[test]
fn retire_shifts_supply_to_retired() {
    let mut tracker = Tracker::new();
    let t = mint(&mut tracker, 5, "REG1", 100, 2023, 8);
    tracker.retire_token_id(8, t, 60).unwrap();
    assert_eq!(tracker.get_supply_by_id(t), Ok(40));
    assert_eq!(tracker.get_retired_by_id(t), Ok(60));
    assert_eq!(tracker.get_total_retired(), 60);
    assert_eq!(tracker.get_account_balance_by_id(8, t), Ok(40));
    assert_eq!(
        tracker.get_account_balance_by_id(get_blackhole_address(), t),
        Ok(60)
    );
}

#[test]
fn retire_more_than_held_fails_without_change() {
    let mut tracker = Tracker::new();
    let t = mint(&mut tracker, 5, "REG1", 100, 2023, 8);
    assert_eq!(
        tracker.retire_token_id(8, t, 101),
        Err(OperationError::InsufficientCarbonUnit)
    );
    assert_eq!(tracker.get_supply_by_id(t), Ok(100));
    assert_eq!(tracker.get_retired_by_id(t), Ok(0));
}

#[test]
fn retire_detects_corrupted_supply() {
    // parking balance in the blackhole by a plain transfer and then
    // retiring from the blackhole itself drives supply below the amount:
    // the engine reports the breach, with the transfer already committed
    let mut tracker = Tracker::new();
    let t = mint(&mut tracker, 5, "REG1", 100, 2023, 8);
    tracker
        .transfer_token_by_id(8, get_blackhole_address(), t, 80)
        .unwrap();
    tracker.retire_token_id(8, t, 20).unwrap();
    assert_eq!(tracker.get_supply_by_id(t), Ok(80));
    assert_eq!(
        tracker.retire_token_id(get_blackhole_address(), t, 90),
        Err(OperationError::BlockchainCorrupted)
    );
}

#[test]
fn retirement_book_records_and_indexes() {
    let mut tracker = Tracker::new();
    let t = mint(&mut tracker, 5, "REG1", 100, 2023, 8);
    tracker.retire_token_id(8, t, 60).unwrap();
    let detail = tracker.get_edition_details(t).unwrap();
    let snapshot = TokenBalanceDetail { balance: 60, detail };
    let mut book = Book::new();
    let info = book.insert_new_report(8, &snapshot, 9, 9000);
    assert_eq!(info.id, 0);
    assert_eq!(info.amount, 60);
    let report = book.get_report_by_id(0).unwrap();
    assert_eq!(report.amount, 60);
    assert_eq!(report.beneficiary, 8);
    assert_eq!(report.token_id, t);
    assert_eq!(report.registry_id, "REG1");
    let last = book.get_last_report().unwrap();
    assert_eq!(last.id, 0);
    let mine = book.get_account_report(8);
    assert_eq!(mine.len(), 1);
    assert_eq!(mine[0].amount, 60);
    assert_eq!(book.get_account_report(9).len(), 0);
}

#[test]
fn missing_report_fails() {
    let book = Book::new();
    assert!(matches!(
        book.get_report_by_id(3),
        Err(OperationError::RetirementReportNotFound)
    ));
    assert!(matches!(
        book.get_last_report(),
        Err(OperationError::RetirementReportNotFound)
    ));
}

#[test]
fn balance_queries_on_unknown_subjects() {
    let mut tracker = Tracker::new();
    mint(&mut tracker, 5, "REG1", 100, 2023, 8);
    // unknown account: zero, not an error
    assert_eq!(tracker.get_account_balance_by_id(42, 0), Ok(0));
    assert_eq!(tracker.get_account_total_balance(42), 0);
    // unknown edition or year: an error
    assert!(matches!(
        tracker.get_account_balance_by_id(8, 7),
        Err(OperationError::TokenNotFound)
    ));
    assert!(matches!(
        tracker.get_account_balance_by_year(8, 1999),
        Err(OperationError::TokenNotFound)
    ));
    // known year, account with no holdings: zero
    assert_eq!(tracker.get_account_balance_by_year(42, 2023), Ok(0));
}

#[test]
fn year_aggregates() {
    let mut tracker = Tracker::new();
    mint(&mut tracker, 5, "REG1", 30, 2023, 8);
    mint(&mut tracker, 5, "REG2", 50, 2023, 9);
    mint(&mut tracker, 5, "REG3", 20, 2024, 8);
    assert_eq!(tracker.get_supply_by_year(2023), Ok(80));
    assert_eq!(tracker.get_supply_by_year(2024), Ok(20));
    assert!(matches!(
        tracker.get_supply_by_year(1999),
        Err(OperationError::TokenNotFound)
    ));
    assert_eq!(tracker.get_retired_by_year(2023), Ok(0));
    assert_eq!(tracker.get_account_balance_by_year(8, 2023), Ok(30));
    let t = 0;
    tracker.retire_token_id(8, t, 10).unwrap();
    assert_eq!(tracker.get_retired_by_year(2023), Ok(10));
    assert_eq!(tracker.get_supply_by_year(2023), Ok(70));
}

#[test]
fn last_minted_tracking() {
    let mut tracker = Tracker::new();
    assert_eq!(tracker.get_last_minted_edition_id(), None);
    assert!(matches!(
        tracker.get_last_minted_edition_info(),
        Err(OperationError::TokenNotFound)
    ));
    mint(&mut tracker, 5, "REG1", 30, 2023, 8);
    let t2 = mint(&mut tracker, 5, "REG2", 50, 2023, 9);
    assert_eq!(tracker.get_last_minted_edition_id(), Some(t2));
    let info = tracker.get_last_minted_edition_info().unwrap();
    assert_eq!(info.id, t2);
    assert_eq!(info.supply, 50);
    assert_eq!(info.minter, 5);
    assert_eq!(info.registry_id, "REG2");
}

#[test]
fn end_to_end_scenario() {
    let mut custodians = Collections::new();
    custodians.add(AddParams { id: 5, alias: String::from("custodian") }, 1, 100).unwrap();
    assert!(custodians.contains(5));

    let mut tracker = Tracker::new();
    request(&mut tracker, 5, "R1", 100, 2023, 8);
    let (_, beneficiary, edition, amount) =
        tracker.approve_pending_mint(&String::from("R1")).unwrap();
    assert_eq!(edition, 0);
    assert_eq!(beneficiary, 8);
    assert_eq!(amount, 100);
    assert_eq!(tracker.get_account_balance_by_id(8, 0), Ok(100));
    assert_eq!(tracker.get_supply_by_year(2023), Ok(100));

    tracker.transfer_token_by_id(8, 9, 0, 40).unwrap();
    assert_eq!(tracker.get_account_balance_by_id(8, 0), Ok(60));
    assert_eq!(tracker.get_account_balance_by_id(9, 0), Ok(40));
    assert_eq!(tracker.get_total_supply(), 100);

    tracker.retire_token_id(8, 0, 60).unwrap();
    assert_eq!(tracker.get_account_balance_by_id(8, 0), Ok(0));
    assert_eq!(tracker.get_account_balances(8).len(), 0);
    assert_eq!(
        tracker.get_account_balance_by_id(get_blackhole_address(), 0),
        Ok(60)
    );
    assert_eq!(tracker.get_supply_by_id(0), Ok(40));
    assert_eq!(tracker.get_retired_by_id(0), Ok(60));
    assert_eq!(tracker.get_total_retired(), 60);

    let detail = tracker.get_edition_details(0).unwrap();
    let mut book = Book::new();
    let info = book.insert_new_report(8, &TokenBalanceDetail { balance: 60, detail }, 2, 200);
    assert_eq!(info.amount, 60);
    let by_id = book.get_report_by_id(info.id).unwrap();
    assert_eq!(by_id.amount, 60);
    let mine = book.get_account_report(8);
    assert_eq!(mine.len(), 1);
    assert_eq!(mine[0].id, info.id);
}

#[test]
fn zero_amount_mint_stores_no_entry() {
    // balance entries are always positive: a zero-amount approval mints
    // the edition but credits nothing
    let mut tracker = Tracker::new();
    let t = mint(&mut tracker, 5, "REG1", 0, 2023, 8);
    assert_eq!(tracker.get_supply_by_id(t), Ok(0));
    assert_eq!(tracker.get_account_balance_by_id(8, t), Ok(0));
    assert_eq!(tracker.get_account_balances(8).len(), 0);
    assert_eq!(
        tracker.transfer_token_all(8, 9),
        Err(OperationError::CannotTransferZeroCarbonUnit)
    );
}

#[test]
fn year_transfer_skips_zero_amount_edition() {
    // the zero-amount edition has no balance entry, so the year walk
    // passes it over and the covering edition alone is drained
    let mut tracker = Tracker::new();
    let t1 = mint(&mut tracker, 5, "REG1", 0, 2023, 8);
    let t2 = mint(&mut tracker, 5, "REG2", 50, 2023, 8);
    let moved = tracker.transfer_token_by_year(8, 9, 2023, 30).unwrap();
    assert_eq!(moved, vec![TokenEdition { id: t2, amount: 30 }]);
    assert_eq!(tracker.get_account_balance_by_id(8, t1), Ok(0));
    assert_eq!(tracker.get_account_balance_by_id(9, t2), Ok(30));
}

#[test]
fn year_transfer_unknown_year_beats_missing_payer() {
    // a year with no editions determines TokenNotFound, whether or not
    // the payer has a balance map
    let mut tracker = Tracker::new();
    mint(&mut tracker, 5, "REG1", 100, 2023, 8);
    assert_eq!(
        tracker.transfer_token_by_year(42, 9, 1999, 10),
        Err(OperationError::TokenNotFound)
    );
}

#[test]
fn self_transfer_keeps_balances() {
    let mut tracker = Tracker::new();
    let t = mint(&mut tracker, 5, "REG1", 100, 2023, 8);
    let moved = tracker.transfer_token_by_id(8, 8, t, 40).unwrap();
    assert_eq!(moved, TokenEdition { id: t, amount: 40 });
    assert_eq!(tracker.get_account_balance_by_id(8, t), Ok(100));
    assert_eq!(tracker.get_total_supply(), 100);
    let swept = tracker.transfer_token_all(8, 8).unwrap();
    assert_eq!(swept, vec![TokenEdition { id: t, amount: 100 }]);
    assert_eq!(tracker.get_account_balance_by_id(8, t), Ok(100));
}

#[test]
fn largest_amount_round_trip() {
    let mut tracker = Tracker::new();
    let t = mint(&mut tracker, 5, "REG1", u64::MAX, 2023, 8);
    tracker.transfer_token_by_id(8, 9, t, u64::MAX / 2).unwrap();
    assert_eq!(tracker.get_account_balance_by_id(9, t), Ok(u64::MAX / 2));
    tracker.retire_token_id(8, t, u64::MAX - u64::MAX / 2).unwrap();
    assert_eq!(tracker.get_supply_by_id(t), Ok(u64::MAX / 2));
    assert_eq!(tracker.get_retired_by_id(t), Ok(u64::MAX - u64::MAX / 2));
    assert_eq!(tracker.get_total_supply(), u64::MAX / 2);
}
