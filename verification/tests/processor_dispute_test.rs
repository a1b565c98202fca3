use txledger::account::Account;
use txledger::codec::decode_fields;
use txledger::codec::header_row;
use txledger::codec::split_fields;
use txledger::processor::Processor;
use txledger::tx_history::TxHistory;
use txledger::tx_row::TxRow;

fn decode_lines(lines: &[&str]) -> Vec<TxRow> {
    let mut rows: Vec<TxRow> = Vec::new();
    for (i, line) in lines.iter().enumerate() {
        let fields = split_fields(line.as_bytes());
        if i == 0 && header_row(&fields) {
            continue;
        }
        rows.push(decode_fields(&fields).expect("row must decode"));
    }
    rows
}

fn clean_history(dir: &[u8], clients: &[u16]) {
    for c in clients {
        let mut h = TxHistory::new(*c, &dir.to_vec()).expect("history opens");
        h.clear().expect("history clears");
    }
}

fn processor_at(dir: &[u8]) -> Processor {
    Processor::with_dirs(b"/tmp/txledger/summary".to_vec(), dir.to_vec())
}

fn account_for(accs: &[Account], client: u16) -> Account {
    *accs.iter().find(|a| a.client_id == client).expect("client has an account")
}

fn du(m: i128, s: u32) -> i128 {
    m * 10i128.pow(4 - s)
}
#[test]
fn process_dispute_base_test() {
    let dir = b"/tmp/txledger/t_dispute";
    let client_id = 5;
    clean_history(dir, &[client_id]);
    let rows = decode_lines(&[
        "type,client,tx,amount",
        "deposit,5,1,1",
        "deposit,5,2,1",
        "deposit,5,3,1",
        "withdraw,5,4,5",
        "withdraw,5,5,1",
        "dispute,5,1",
    ]);
    let p = processor_at(dir);
    let accs = p.process_data(&rows).expect("run succeeds");

    let account = account_for(&accs, client_id);
    assert_eq!(account.client_id, client_id);
    assert_eq!(account.available, du(1, 0));
    assert_eq!(account.held, du(1, 0));
    assert_eq!(account.total, du(2, 0));
    assert!(!account.locked);
}

#[test]
fn process_dispute_tx_dne_test() {
    let dir = b"/tmp/txledger/t_dispute";
    let client_id = 6;
    clean_history(dir, &[client_id]);
    let rows = decode_lines(&[
        "type,client,tx,amount",
        "dispute,6,1",
        "deposit,6,2,5",
        "deposit,6,3,10",
        "withdraw,6,4,1",
        "dispute,6,50",
    ]);
    let p = processor_at(dir);
    let accs = p.process_data(&rows).expect("run succeeds");

    let account = account_for(&accs, client_id);
    assert_eq!(account.client_id, client_id);
    assert_eq!(account.available, du(14, 0));
    assert_eq!(account.held, du(0, 0));
    assert_eq!(account.total, du(14, 0));
    assert!(!account.locked);
}

#[test]
fn process_dispute_existing_dispute_test() {
    let dir = b"/tmp/txledger/t_dispute";
    let client_id = 8;
    clean_history(dir, &[client_id]);
    let rows = decode_lines(&[
        "type,client,tx,amount",
        "deposit,8,1,5",
        "deposit,8,2,10",
        "withdraw,8,3,1",
        "dispute,8,1",
        "deposit,8,4,3",
        "dispute,8,1",
        "dispute,8,1",
    ]);
    let p = processor_at(dir);
    let accs = p.process_data(&rows).expect("run succeeds");

    let account = account_for(&accs, client_id);
    assert_eq!(account.client_id, client_id);
    assert_eq!(account.available, du(12, 0));
    assert_eq!(account.held, du(5, 0));
    assert_eq!(account.total, du(17, 0));
    assert!(!account.locked);
}

#[test]
fn process_dispute_multi_test() {
    let dir = b"/tmp/txledger/t_dispute_multi";
    let client_id = 24;
    clean_history(dir, &[client_id]);
    let p = processor_at(dir);
    let rows = decode_lines(&[
        "type,client,tx,amount",
        "deposit,24,1,1",
        "deposit,24,2,1",
        "deposit,24,3,1",
    ]);
    let first = p.process_data(&rows).expect("first run succeeds");

    let rows = decode_lines(&[
        "type,client,tx,amount",
        "withdraw,24,4,5",
        "withdraw,24,5,1",
        "dispute,24,1",
    ]);
    let accs = p.update_accounts(&first, &rows).expect("second run succeeds");

    let account = account_for(&accs, client_id);
    assert_eq!(account.client_id, client_id);
    assert_eq!(account.available, du(1, 0));
    assert_eq!(account.held, du(1, 0));
    assert_eq!(account.total, du(2, 0));
    assert!(!account.locked);
}
