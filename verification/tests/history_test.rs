use txledger::account::Account;
use txledger::account::TxRec;
use txledger::balancer::Balancer;
use txledger::summary::SummaryPath;
use txledger::summary::SummaryPathData;
use txledger::summary::TxSummary;
use txledger::summary::TxSummaryData;
use txledger::tx_history::TxHistory;
use txledger::tx_row::Record;
use txledger::tx_row::TxRow;
use txledger::tx_row::TxRowType;

fn fresh(client: u16, dir: &[u8]) -> TxHistory {
    let mut h = TxHistory::new(client, &dir.to_vec()).expect("history opens");
    h.clear().expect("history clears");
    h
}

#[test]
fn put_is_idempotent_and_rejects_conflicts() {
    let dir = b"/tmp/txledger/t_history_put";
    let mut h = fresh(50, dir);
    let amt: i128 = 25000;
    assert!(h.set_tx(&TxRowType::DEPOSIT, &50, &1, &amt).expect("store reachable"));
    // the same record again is a no-op that still succeeds
    assert!(h.set_tx(&TxRowType::DEPOSIT, &50, &1, &amt).expect("store reachable"));
    // a conflicting record for the same transaction fails
    let other: i128 = 30000;
    assert!(!h.set_tx(&TxRowType::DEPOSIT, &50, &1, &other).expect("store reachable"));
    assert!(!h.set_tx(&TxRowType::WITHDRAW, &50, &1, &amt).expect("store reachable"));
    // dispute-family kinds and non-positive amounts are never records
    assert!(!h.set_tx(&TxRowType::DISPUTE, &50, &2, &amt).expect("store reachable"));
    let zero: i128 = 0;
    assert!(!h.set_tx(&TxRowType::DEPOSIT, &50, &2, &zero).expect("store reachable"));

    let rec = h.get_tx(&1).expect("store reachable").expect("record exists");
    assert_eq!(
        rec,
        TxRec {
            type_id: TxRowType::DEPOSIT,
            client_id: 50,
            amount: amt,
            state_id: TxRowType::NONE,
        }
    );
}

#[test]
fn dispute_state_moves_only_along_legal_transitions() {
    let dir = b"/tmp/txledger/t_history_state";
    let mut h = fresh(51, dir);
    let amt: i128 = 10000;
    assert!(h.set_tx(&TxRowType::DEPOSIT, &51, &7, &amt).expect("store reachable"));
    // resolve before any dispute is illegal
    assert!(!h.set_dispute_state(&7, TxRowType::RESOLVE).expect("store reachable"));
    assert!(h.set_dispute_state(&7, TxRowType::DISPUTE).expect("store reachable"));
    // a second dispute is illegal
    assert!(!h.set_dispute_state(&7, TxRowType::DISPUTE).expect("store reachable"));
    assert!(h.set_dispute_state(&7, TxRowType::RESOLVE).expect("store reachable"));
    // a resolved transaction cannot be charged back
    assert!(!h.set_dispute_state(&7, TxRowType::CHARGEBACK).expect("store reachable"));
    // unknown transactions never move
    assert!(!h.set_dispute_state(&8, TxRowType::DISPUTE).expect("store reachable"));

    let rec = h.get_tx(&7).expect("store reachable").expect("record exists");
    assert_eq!(rec.state_id, TxRowType::RESOLVE);
    assert_eq!(rec.amount, amt);
}

#[test]
fn records_survive_reopening_the_store() {
    let dir = b"/tmp/txledger/t_history_reopen";
    let amt: i128 = 42 * 10000;
    {
        let mut h = fresh(52, dir);
        assert!(h.set_tx(&TxRowType::WITHDRAW, &52, &3, &amt).expect("store reachable"));
        assert!(h.set_dispute_state(&3, TxRowType::DISPUTE).expect("store reachable"));
    }
    let mut h = TxHistory::new(52, &dir.to_vec()).expect("history reopens");
    let rec = h.get_tx(&3).expect("store reachable").expect("record survived");
    assert_eq!(
        rec,
        TxRec {
            type_id: TxRowType::WITHDRAW,
            client_id: 52,
            amount: amt,
            state_id: TxRowType::DISPUTE,
        }
    );
    h.flush().expect("flush succeeds");
}

#[test]
fn handle_tx_applies_one_event() {
    let dir = b"/tmp/txledger/t_history_handle";
    let mut h = fresh(53, dir);
    let mut account = Account::new(53);
    let amt: i128 = 12345;
    account
        .handle_tx(&TxRowType::DEPOSIT, &1, &amt, &mut h)
        .expect("store reachable");
    assert_eq!(account.available, amt);
    assert_eq!(account.total, amt);
    // the deposit was recorded with matching kind, owner and amount
    let rec = h.get_tx(&1).expect("store reachable").expect("recorded");
    assert_eq!(rec.type_id, TxRowType::DEPOSIT);
    assert_eq!(rec.client_id, 53);
    assert_eq!(rec.amount, amt);
    // replaying the same transaction id is ignored
    account
        .handle_tx(&TxRowType::DEPOSIT, &1, &amt, &mut h)
        .expect("store reachable");
    assert_eq!(account.available, amt);
}

#[test]
fn router_pins_clients_round_robin() {
    let mut b = Balancer::new(4);
    assert_eq!(b.route(10), 0);
    assert_eq!(b.route(20), 1);
    assert_eq!(b.route(10), 0);
    assert_eq!(b.route(30), 2);
    assert_eq!(b.route(40), 3);
    assert_eq!(b.route(50), 0);
    assert_eq!(b.route(20), 1);
}

#[test]
fn record_trait_tells_rows_apart() {
    let good = TxRow::new(TxRowType::DEPOSIT, 1, 2, 30000);
    assert_eq!(good.record_type(), TxRowType::DEPOSIT);
    assert!(good.valid_record());
    let bad = TxRow::new(TxRowType::NONE, 1, 2, 0);
    assert!(!bad.valid_record());
}

#[test]
fn summary_types_carry_their_data() {
    let p = SummaryPath::new();
    assert!(p.update_file());
    assert!(p.file_path().is_empty());
    assert!(p.file_name().is_empty());

    let t = TxSummary::new(b"data/summary/inputs/42".to_vec()).expect("client dir");
    assert_eq!(t.client_id(), 42);
    assert_eq!(t.dir_path(), &b"data/summary/inputs/42".to_vec());
    assert!(TxSummary::new(b"data/summary/inputs/backup".to_vec()).is_none());
    assert!(TxSummary::new(b"data/summary/inputs/".to_vec()).is_none());
}

#[test]
fn working_directory_comes_from_the_file_stem() {
    let p = txledger::processor::Processor::new(&b"src/tests/csv/base.csv".to_vec()).expect("path has a file name");
    assert_eq!(p.summary_dir(), &b"data/summary/base".to_vec());
    assert_eq!(p.transaction_dir(), &b"data/transaction".to_vec());

    let d = txledger::processor::Processor::csv_base_dir(&b"archive.tar.gz".to_vec(), &b"out".to_vec())
        .expect("bare file name works");
    assert_eq!(d, b"out/archive".to_vec());

    assert!(txledger::processor::Processor::new(&b"some/dir/".to_vec()).is_err());
    assert!(txledger::processor::Processor::new(&b"".to_vec()).is_err());
}
