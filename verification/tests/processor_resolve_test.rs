use txledger::account::Account;
use txledger::codec::decode_fields;
use txledger::codec::header_row;
use txledger::codec::split_fields;
use txledger::processor::Processor;
use txledger::tx_history::TxHistory;
use txledger::tx_row::TxRow;

fn decode_lines(lines: &[&str]) -> Vec<TxRow> {
    let mut rows: Vec<TxRow> = Vec::new();
    for (i, line) in lines.iter().enumerate() {
        let fields = split_fields(line.as_bytes());
        if i == 0 && header_row(&fields) {
            continue;
        }
        rows.push(decode_fields(&fields).expect("row must decode"));
    }
    rows
}

fn clean_history(dir: &[u8], clients: &[u16]) {
    for c in clients {
        let mut h = TxHistory::new(*c, &dir.to_vec()).expect("history opens");
        h.clear().expect("history clears");
    }
}

fn processor_at(dir: &[u8]) -> Processor {
    Processor::with_dirs(b"/tmp/txledger/summary".to_vec(), dir.to_vec())
}

fn account_for(accs: &[Account], client: u16) -> Account {
    *accs.iter().find(|a| a.client_id == client).expect("client has an account")
}

fn du(m: i128, s: u32) -> i128 {
    m * 10i128.pow(4 - s)
}
#[test]
fn process_resolve_base_test() {
    let dir = b"/tmp/txledger/t_resolve";
    let client_id = 9;
    clean_history(dir, &[client_id]);
    let rows = decode_lines(&[
        "type,client,tx,amount",
        "deposit,9,1,10",
        "deposit,9,2,11",
        "deposit,9,3,12",
        "withdraw,9,4,50",
        "withdraw,9,5,11",
        "dispute,9,1",
        "deposit,9,6,12",
        "resolve,9,1",
    ]);
    let p = processor_at(dir);
    let accs = p.process_data(&rows).expect("run succeeds");

    let account = account_for(&accs, client_id);
    assert_eq!(account.client_id, client_id);
    assert_eq!(account.available, du(34, 0));
    assert_eq!(account.held, du(0, 0));
    assert_eq!(account.total, du(34, 0));
    assert!(!account.locked);
}

#[test]
fn process_resolve_tx_dne_test() {
    let dir = b"/tmp/txledger/t_resolve";
    let client_id = 10;
    clean_history(dir, &[client_id]);
    let rows = decode_lines(&[
        "type,client,tx,amount",
        "deposit,10,1,10",
        "deposit,10,2,11",
        "deposit,10,3,12",
        "withdraw,10,4,50",
        "withdraw,10,5,11",
        "resolve,10,50",
        "deposit,10,6,12",
    ]);
    let p = processor_at(dir);
    let accs = p.process_data(&rows).expect("run succeeds");

    let account = account_for(&accs, client_id);
    assert_eq!(account.client_id, client_id);
    assert_eq!(account.available, du(34, 0));
    assert_eq!(account.held, du(0, 0));
    assert_eq!(account.total, du(34, 0));
    assert!(!account.locked);
}

#[test]
fn process_resolve_dispute_on_resolved_account_test() {
    let dir = b"/tmp/txledger/t_resolve";
    let client_id = 11;
    clean_history(dir, &[client_id]);
    let rows = decode_lines(&[
        "type,client,tx,amount",
        "deposit,11,1,10",
        "deposit,11,2,11",
        "deposit,11,3,12",
        "withdraw,11,4,50",
        "withdraw,11,5,11",
        "dispute,11,1",
        "deposit,11,6,12",
        "resolve,11,1",
        "deposit,11,7,1",
        "dispute,11,1",
    ]);
    let p = processor_at(dir);
    let accs = p.process_data(&rows).expect("run succeeds");

    let account = account_for(&accs, client_id);
    assert_eq!(account.client_id, client_id);
    assert_eq!(account.available, du(35, 0));
    assert_eq!(account.held, du(0, 0));
    assert_eq!(account.total, du(35, 0));
    assert!(!account.locked);
}
