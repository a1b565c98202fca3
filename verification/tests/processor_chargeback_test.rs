use txledger::account::Account;
use txledger::codec::decode_fields;
use txledger::codec::header_row;
use txledger::codec::split_fields;
use txledger::processor::Processor;
use txledger::tx_history::TxHistory;
use txledger::tx_row::TxRow;

fn decode_lines(lines: &[&str]) -> Vec<TxRow> {
    let mut rows: Vec<TxRow> = Vec::new();
    for (i, line) in lines.iter().enumerate() {
        let fields = split_fields(line.as_bytes());
        if i == 0 && header_row(&fields) {
            continue;
        }
        rows.push(decode_fields(&fields).expect("row must decode"));
    }
    rows
}

fn clean_history(dir: &[u8], clients: &[u16]) {
    for c in clients {
        let mut h = TxHistory::new(*c, &dir.to_vec()).expect("history opens");
        h.clear().expect("history clears");
    }
}

fn processor_at(dir: &[u8]) -> Processor {
    Processor::with_dirs(b"/tmp/txledger/summary".to_vec(), dir.to_vec())
}

fn account_for(accs: &[Account], client: u16) -> Account {
    *accs.iter().find(|a| a.client_id == client).expect("client has an account")
}

fn du(m: i128, s: u32) -> i128 {
    m * 10i128.pow(4 - s)
}
#[test]
fn process_chargeback_base_test() {
    let dir = b"/tmp/txledger/t_chargeback";
    let client_id = 12;
    clean_history(dir, &[client_id]);
    let rows = decode_lines(&[
        "type,client,tx,amount",
        "deposit,12,1,10",
        "deposit,12,2,11",
        "deposit,12,3,12",
        "withdrawal,12,4,50",
        "withdrawal,12,5,11",
        "dispute,12,1",
        "deposit,12,6,12",
        "chargeback,12,1",
    ]);
    let p = processor_at(dir);
    let accs = p.process_data(&rows).expect("run succeeds");

    let account = account_for(&accs, client_id);
    assert_eq!(account.client_id, client_id);
    assert_eq!(account.available, du(24, 0));
    assert_eq!(account.held, du(0, 0));
    assert_eq!(account.total, du(24, 0));
    assert!(account.locked);
}

#[test]
fn process_chargeback_tx_dne_test() {
    let dir = b"/tmp/txledger/t_chargeback";
    let client_id = 13;
    clean_history(dir, &[client_id]);
    let rows = decode_lines(&[
        "type,client,tx,amount",
        "deposit,13,1,10",
        "deposit,13,2,11",
        "deposit,13,3,12",
        "withdrawal,13,4,50",
        "withdrawal,13,5,11",
        "deposit,13,6,12",
        "chargeback,13,155",
    ]);
    let p = processor_at(dir);
    let accs = p.process_data(&rows).expect("run succeeds");

    let account = account_for(&accs, client_id);
    assert_eq!(account.client_id, client_id);
    assert_eq!(account.available, du(34, 0));
    assert_eq!(account.held, du(0, 0));
    assert_eq!(account.total, du(34, 0));
    assert!(!account.locked);
}

#[test]
fn process_chargeback_on_non_dispute_test() {
    let dir = b"/tmp/txledger/t_chargeback";
    let client_id = 14;
    clean_history(dir, &[client_id]);
    let rows = decode_lines(&[
        "type,client,tx,amount",
        "deposit,14,1,10",
        "deposit,14,2,11",
        "deposit,14,3,12",
        "withdrawal,14,4,50",
        "withdrawal,14,5,11",
        "deposit,14,6,12",
        "chargeback,14,1",
    ]);
    let p = processor_at(dir);
    let accs = p.process_data(&rows).expect("run succeeds");

    let account = account_for(&accs, client_id);
    assert_eq!(account.client_id, client_id);
    assert_eq!(account.available, du(34, 0));
    assert_eq!(account.held, du(0, 0));
    assert_eq!(account.total, du(34, 0));
    assert!(!account.locked);
}

#[test]
fn process_chargeback_on_withdraw_test() {
    let dir = b"/tmp/txledger/t_chargeback";
    let client_id = 15;
    clean_history(dir, &[client_id]);
    let rows = decode_lines(&[
        "type,client,tx,amount",
        "deposit,15,1,10",
        "deposit,15,2,11",
        "deposit,15,3,12",
        "withdrawal,15,4,12",
        "withdrawal,15,5,11",
        "dispute,15,4,",
        "deposit,15,6,12",
        "chargeback,15,4",
    ]);
    let p = processor_at(dir);
    let accs = p.process_data(&rows).expect("run succeeds");

    let account = account_for(&accs, client_id);
    assert_eq!(account.client_id, client_id);
    assert_eq!(account.available, du(34, 0));
    assert_eq!(account.held, du(0, 0));
    assert_eq!(account.total, du(34, 0));
    assert!(account.locked);
}

#[test]
fn process_chargeback_on_resolve_test() {
    let dir = b"/tmp/txledger/t_chargeback";
    let client_id = 16;
    clean_history(dir, &[client_id]);
    let rows = decode_lines(&[
        "type,client,tx,amount",
        "deposit,16,1,10",
        "deposit,16,2,11",
        "deposit,16,3,12",
        "withdrawal,16,4,12",
        "withdrawal,16,5,11",
        "dispute,16,2,",
        "deposit,16,6,12",
        "resolve,16,2",
        "chargeback,16,2",
    ]);
    let p = processor_at(dir);
    let accs = p.process_data(&rows).expect("run succeeds");

    let account = account_for(&accs, client_id);
    assert_eq!(account.client_id, client_id);
    assert_eq!(account.available, du(22, 0));
    assert_eq!(account.held, du(0, 0));
    assert_eq!(account.total, du(22, 0));
    assert!(!account.locked);
}

#[test]
fn process_chargeback_deposit_test() {
    let dir = b"/tmp/txledger/t_chargeback";
    let client_id = 17;
    clean_history(dir, &[client_id]);
    let rows = decode_lines(&[
        "type,client,tx,amount",
        "deposit,17,1,10",
        "deposit,17,2,11",
        "deposit,17,3,12",
        "withdrawal,17,4,50",
        "withdrawal,17,5,11",
        "dispute,17,1",
        "deposit,17,6,12",
        "chargeback,17,1",
        "deposit,17,7,50",
    ]);
    let p = processor_at(dir);
    let accs = p.process_data(&rows).expect("run succeeds");

    let account = account_for(&accs, client_id);
    assert_eq!(account.client_id, client_id);
    assert_eq!(account.available, du(24, 0));
    assert_eq!(account.held, du(0, 0));
    assert_eq!(account.total, du(24, 0));
    assert!(account.locked);
}

#[test]
fn process_chargeback_withdraw_test() {
    let dir = b"/tmp/txledger/t_chargeback";
    let client_id = 18;
    clean_history(dir, &[client_id]);
    let rows = decode_lines(&[
        "type,client,tx,amount",
        "deposit,18,1,10",
        "deposit,18,2,11",
        "deposit,18,3,12",
        "withdrawal,18,4,50",
        "withdrawal,18,5,11",
        "dispute,18,1",
        "deposit,18,6,12",
        "chargeback,18,1",
        "withdrawal,18,7,10",
    ]);
    let p = processor_at(dir);
    let accs = p.process_data(&rows).expect("run succeeds");

    let account = account_for(&accs, client_id);
    assert_eq!(account.client_id, client_id);
    assert_eq!(account.available, du(24, 0));
    assert_eq!(account.held, du(0, 0));
    assert_eq!(account.total, du(24, 0));
    assert!(account.locked);
}

#[test]
fn process_chargeback_dispute_test() {
    let dir = b"/tmp/txledger/t_chargeback";
    let client_id = 19;
    clean_history(dir, &[client_id]);
    let rows = decode_lines(&[
        "type,client,tx,amount",
        "deposit,19,1,10",
        "deposit,19,2,11",
        "deposit,19,3,12",
        "withdrawal,19,4,50",
        "withdrawal,19,5,11",
        "dispute,19,1",
        "deposit,19,6,12",
        "chargeback,19,1",
        "dispute,19,1",
    ]);
    let p = processor_at(dir);
    let accs = p.process_data(&rows).expect("run succeeds");

    let account = account_for(&accs, client_id);
    assert_eq!(account.client_id, client_id);
    assert_eq!(account.available, du(24, 0));
    assert_eq!(account.held, du(0, 0));
    assert_eq!(account.total, du(24, 0));
    assert!(account.locked);
}

#[test]
fn process_chargeback_resolve_test() {
    let dir = b"/tmp/txledger/t_chargeback";
    let client_id = 20;
    clean_history(dir, &[client_id]);
    let rows = decode_lines(&[
        "type,client,tx,amount",
        "deposit,20,1,10",
        "deposit,20,2,11",
        "deposit,20,3,12",
        "withdrawal,20,4,50",
        "withdrawal,20,5,11",
        "dispute,20,1",
        "deposit,20,6,12",
        "chargeback,20,1",
        "resolve,20,1",
    ]);
    let p = processor_at(dir);
    let accs = p.process_data(&rows).expect("run succeeds");

    let account = account_for(&accs, client_id);
    assert_eq!(account.client_id, client_id);
    assert_eq!(account.available, du(24, 0));
    assert_eq!(account.held, du(0, 0));
    assert_eq!(account.total, du(24, 0));
    assert!(account.locked);
}

#[test]
fn process_chargeback_chargeback_test() {
    let dir = b"/tmp/txledger/t_chargeback";
    let client_id = 21;
    clean_history(dir, &[client_id]);
    let rows = decode_lines(&[
        "type,client,tx,amount",
        "deposit,21,1,10",
        "deposit,21,2,11",
        "deposit,21,3,12",
        "withdrawal,21,4,50",
        "withdrawal,21,5,11",
        "dispute,21,1",
        "deposit,21,6,12",
        "chargeback,21,1",
        "chargeback,21,1",
    ]);
    let p = processor_at(dir);
    let accs = p.process_data(&rows).expect("run succeeds");

    let account = account_for(&accs, client_id);
    assert_eq!(account.client_id, client_id);
    assert_eq!(account.available, du(24, 0));
    assert_eq!(account.held, du(0, 0));
    assert_eq!(account.total, du(24, 0));
    assert!(account.locked);
}

#[test]
fn process_chargeback_multi_test() {
    let dir = b"/tmp/txledger/t_chargeback_multi";
    let client_id = 26;
    clean_history(dir, &[client_id]);
    let p = processor_at(dir);
    let rows = decode_lines(&[
        "type,client,tx,amount",
        "deposit,26,1,10",
        "deposit,26,2,11",
    ]);
    let first = p.process_data(&rows).expect("first run succeeds");

    let rows = decode_lines(&[
        "type,client,tx,amount",
        "dispute,26,1",
        "deposit,26,3,12",
        "withdrawal,26,4,50",
    ]);
    let second = p.update_accounts(&first, &rows).expect("second run succeeds");

    let rows = decode_lines(&[
        "type,client,tx,amount",
        "withdrawal,26,5,11",
        "deposit,26,6,12",
        "chargeback,26,1",
    ]);
    let accs = p.update_accounts(&second, &rows).expect("third run succeeds");

    let account = account_for(&accs, client_id);
    assert_eq!(account.client_id, client_id);
    assert_eq!(account.available, du(24, 0));
    assert_eq!(account.held, du(0, 0));
    assert_eq!(account.total, du(24, 0));
    assert!(account.locked);
}
