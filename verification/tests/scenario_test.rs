use txledger::account::Account;
use txledger::codec::decode_fields;
use txledger::codec::header_row;
use txledger::codec::split_fields;
use txledger::processor::Processor;
use txledger::tx_history::TxHistory;
use txledger::tx_row::TxRow;

fn decode_lines(lines: &[&str]) -> Vec<TxRow> {
    let mut rows: Vec<TxRow> = Vec::new();
    for (i, line) in lines.iter().enumerate() {
        let fields = split_fields(line.as_bytes());
        if i == 0 && header_row(&fields) {
            continue;
        }
        rows.push(decode_fields(&fields).expect("row must decode"));
    }
    rows
}

fn clean_history(dir: &[u8], clients: &[u16]) {
    for c in clients {
        let mut h = TxHistory::new(*c, &dir.to_vec()).expect("history opens");
        h.clear().expect("history clears");
    }
}

fn processor_at(dir: &[u8]) -> Processor {
    Processor::with_dirs(b"/tmp/txledger/summary".to_vec(), dir.to_vec())
}

fn account_for(accs: &[Account], client: u16) -> Account {
    *accs.iter().find(|a| a.client_id == client).expect("client has an account")
}

fn du(m: i128, s: u32) -> i128 {
    m * 10i128.pow(4 - s)
}
use txledger::codec::parse_snapshot_fields;

fn snapshot_strings(accs: &Vec<Account>) -> Vec<String> {
    Processor::show_accounts(accs)
        .into_iter()
        .map(|row| String::from_utf8(row).expect("snapshot rows are text"))
        .collect()
}

#[test]
fn scenario_mixed_deposits_withdrawals() {
    let dir = b"/tmp/txledger/t_scenario_a";
    clean_history(dir, &[1, 2]);
    let rows = decode_lines(&[
        "deposit,1,1,1.0",
        "deposit,2,2,2.0",
        "deposit,1,3,2.0",
        "withdrawal,1,4,1.5",
        "withdrawal,2,5,3.0",
    ]);
    let p = processor_at(dir);
    let accs = p.process_data(&rows).expect("run succeeds");
    let out = snapshot_strings(&accs);
    assert_eq!(out.len(), 2);
    assert!(out.contains(&"1,1.5000,0.0000,1.5000,false".to_string()));
    assert!(out.contains(&"2,2.0000,0.0000,2.0000,false".to_string()));
}

#[test]
fn scenario_dispute_then_resolve() {
    let dir = b"/tmp/txledger/t_scenario_b";
    clean_history(dir, &[5]);
    let rows = decode_lines(&[
        "deposit,5,1,1.0",
        "deposit,5,2,1.0",
        "deposit,5,3,1.0",
        "withdrawal,5,4,5.0",
        "withdrawal,5,5,1.0",
        "dispute,5,1",
        "resolve,5,1",
    ]);
    let p = processor_at(dir);
    let accs = p.process_data(&rows).expect("run succeeds");
    let out = snapshot_strings(&accs);
    assert_eq!(out, vec!["5,2.0000,0.0000,2.0000,false".to_string()]);
}

#[test]
fn scenario_chargeback_locks_account() {
    let dir = b"/tmp/txledger/t_scenario_c";
    clean_history(dir, &[12]);
    let rows = decode_lines(&[
        "deposit,12,1,10",
        "deposit,12,2,11",
        "deposit,12,3,12",
        "withdrawal,12,4,50",
        "withdrawal,12,5,11",
        "dispute,12,1",
        "deposit,12,6,12",
        "chargeback,12,1",
    ]);
    let p = processor_at(dir);
    let accs = p.process_data(&rows).expect("run succeeds");
    let out = snapshot_strings(&accs);
    assert_eq!(out, vec!["12,24.0000,0.0000,24.0000,true".to_string()]);
}

#[test]
fn scenario_withdrawal_chargeback_reimburses() {
    let dir = b"/tmp/txledger/t_scenario_d";
    clean_history(dir, &[15]);
    let rows = decode_lines(&[
        "deposit,15,1,10",
        "deposit,15,2,11",
        "deposit,15,3,12",
        "withdrawal,15,4,12",
        "withdrawal,15,5,11",
        "dispute,15,4",
        "chargeback,15,4",
        "deposit,15,6,12",
    ]);
    let p = processor_at(dir);
    let accs = p.process_data(&rows).expect("run succeeds");
    let account = account_for(&accs, 15);
    // the withdrawal of 12 is reimbursed on top of the remaining 10;
    // the deposit after the lock is ignored
    assert_eq!(account.available, du(22, 0));
    assert_eq!(account.total, account.available);
    assert!(account.locked);
}

#[test]
fn scenario_dispute_unknown_tx_is_noop() {
    let dir = b"/tmp/txledger/t_scenario_e";
    clean_history(dir, &[6]);
    let rows = decode_lines(&[
        "dispute,6,1",
        "deposit,6,2,5",
        "deposit,6,3,10",
        "withdrawal,6,4,1",
        "dispute,6,50",
    ]);
    let p = processor_at(dir);
    let accs = p.process_data(&rows).expect("run succeeds");
    let out = snapshot_strings(&accs);
    assert_eq!(out, vec!["6,14.0000,0.0000,14.0000,false".to_string()]);
}

#[test]
fn scenario_multi_run_continuation() {
    let dir = b"/tmp/txledger/t_scenario_f";
    clean_history(dir, &[5]);
    let p = processor_at(dir);
    let first_rows = decode_lines(&["deposit,5,1,1.0", "deposit,5,2,1.0", "deposit,5,3,1.0"]);
    let first = p.process_data(&first_rows).expect("first run succeeds");

    // finalize: snapshot rows, then reload the accounts from them as a
    // fresh run would
    let mut seeds: Vec<Account> = Vec::new();
    for row in Processor::show_accounts(&first) {
        let fields = split_fields(&row);
        let (client_id, available, held, total, locked) =
            parse_snapshot_fields(&fields).expect("snapshot rows read back");
        seeds.push(Account { client_id, available, held, total, locked });
    }

    let rest_rows = decode_lines(&[
        "withdrawal,5,4,5.0",
        "withdrawal,5,5,1.0",
        "dispute,5,1",
        "resolve,5,1",
    ]);
    let accs = p.update_accounts(&seeds, &rest_rows).expect("second run succeeds");

    // the continuation must equal the single-run result exactly
    let single_dir = b"/tmp/txledger/t_scenario_f_single";
    clean_history(single_dir, &[5]);
    let all_rows = decode_lines(&[
        "deposit,5,1,1.0",
        "deposit,5,2,1.0",
        "deposit,5,3,1.0",
        "withdrawal,5,4,5.0",
        "withdrawal,5,5,1.0",
        "dispute,5,1",
        "resolve,5,1",
    ]);
    let single = processor_at(single_dir).process_data(&all_rows).expect("single run succeeds");

    assert_eq!(account_for(&accs, 5), account_for(&single, 5));
    assert_eq!(snapshot_strings(&accs), vec!["5,2.0000,0.0000,2.0000,false".to_string()]);
}

#[test]
fn rerun_same_input_is_byte_identical() {
    let dir = b"/tmp/txledger/t_rerun";
    let lines = [
        "deposit,31,1,3.5",
        "deposit,32,2,1.25",
        "withdrawal,31,3,1.0",
        "dispute,31,1",
    ];
    clean_history(dir, &[31, 32]);
    let p = processor_at(dir);
    let out1 = snapshot_strings(&p.process_data(&decode_lines(&lines)).expect("first run"));
    clean_history(dir, &[31, 32]);
    let out2 = snapshot_strings(&p.process_data(&decode_lines(&lines)).expect("second run"));
    assert_eq!(out1, out2);
}

#[test]
fn unseen_client_starts_from_zero() {
    let dir = b"/tmp/txledger/t_unseen";
    clean_history(dir, &[33]);
    let rows = decode_lines(&["deposit,33,1,7.5"]);
    let p = processor_at(dir);
    let accs = p.process_data(&rows).expect("run succeeds");
    let account = account_for(&accs, 33);
    assert_eq!(account.available, du(75, 1));
    assert_eq!(account.held, 0);
    assert_eq!(account.total, du(75, 1));
    assert!(!account.locked);
}

#[test]
fn foreign_client_record_is_rejected_at_put() {
    let dir = b"/tmp/txledger/t_foreign";
    clean_history(dir, &[40, 41]);
    let mut h = TxHistory::new(40, &dir.to_vec()).expect("history opens");
    // a record for another client must not enter this client's store
    let stored = h
        .set_tx(&txledger::tx_row::TxRowType::DEPOSIT, &41, &9, &du(5, 0))
        .expect("store reachable");
    assert!(!stored);
    assert_eq!(h.get_tx(&9).expect("store reachable"), None);
    // the same transaction for the owning client is accepted
    let stored = h
        .set_tx(&txledger::tx_row::TxRowType::DEPOSIT, &40, &9, &du(5, 0))
        .expect("store reachable");
    assert!(stored);
}

#[test]
fn blockwise_processing_equals_whole() {
    let lines = [
        "deposit,5,1,1.0",
        "deposit,5,2,1.0",
        "deposit,5,3,1.0",
        "withdrawal,5,4,5.0",
        "withdrawal,5,5,1.0",
        "dispute,5,1",
        "resolve,5,1",
    ];
    let rows = decode_lines(&lines);

    let whole_dir = b"/tmp/txledger/t_blocks_whole";
    clean_history(whole_dir, &[5]);
    let whole = processor_at(whole_dir).process_data(&rows).expect("whole run succeeds");

    let block_dir = b"/tmp/txledger/t_blocks_split";
    clean_history(block_dir, &[5]);
    let p = processor_at(block_dir);
    let mut accs: Vec<Account> = Vec::new();
    for block in txledger::processor::split_blocks(&rows, 3) {
        accs = p.update_accounts(&accs, &block).expect("block run succeeds");
    }

    assert_eq!(account_for(&accs, 5), account_for(&whole, 5));
}
