use txledger::account::Account;
use txledger::codec::decode_fields;
use txledger::codec::header_row;
use txledger::codec::split_fields;
use txledger::processor::Processor;
use txledger::tx_history::TxHistory;
use txledger::tx_row::TxRow;

fn decode_lines(lines: &[&str]) -> Vec<TxRow> {
    let mut rows: Vec<TxRow> = Vec::new();
    for (i, line) in lines.iter().enumerate() {
        let fields = split_fields(line.as_bytes());
        if i == 0 && header_row(&fields) {
            continue;
        }
        rows.push(decode_fields(&fields).expect("row must decode"));
    }
    rows
}

fn clean_history(dir: &[u8], clients: &[u16]) {
    for c in clients {
        let mut h = TxHistory::new(*c, &dir.to_vec()).expect("history opens");
        h.clear().expect("history clears");
    }
}

fn processor_at(dir: &[u8]) -> Processor {
    Processor::with_dirs(b"/tmp/txledger/summary".to_vec(), dir.to_vec())
}

fn account_for(accs: &[Account], client: u16) -> Account {
    *accs.iter().find(|a| a.client_id == client).expect("client has an account")
}

fn du(m: i128, s: u32) -> i128 {
    m * 10i128.pow(4 - s)
}
#[test]
fn processor_deposit_test_process_deposit_test() {
    let dir = b"/tmp/txledger/t_deposit";
    clean_history(dir, &[1, 2, 3, 4]);
    let rows = decode_lines(&[
        "type,client,tx,amount",
        "deposit,1,1,1",
        "deposit,2,2,1",
        "deposit,3,3,1",
        "deposit,4,4,1",
        "deposit,4,5,2",
        "deposit,2,6,2",
        "deposit,3,7,2",
        "deposit,1,8,2",
    ]);
    let p = processor_at(dir);
    let accs = p.process_data(&rows).expect("run succeeds");

    let account = account_for(&accs, 4);
    assert_eq!(account.client_id, 4);
    assert_eq!(account.available, du(3, 0));
    assert_eq!(account.held, du(0, 0));
    assert_eq!(account.total, du(3, 0));
    assert!(!account.locked);
}

#[test]
fn process_deposit_multi_test() {
    let dir = b"/tmp/txledger/t_deposit_multi";
    let client_id = 22;
    clean_history(dir, &[client_id]);
    let p = processor_at(dir);
    let rows = decode_lines(&[
        "type,client,tx,amount",
        "deposit,22,1,1",
        "deposit,22,2,1",
        "deposit,22,3,1",
        "deposit,22,4,1",
    ]);
    let first = p.process_data(&rows).expect("first run succeeds");

    let rows = decode_lines(&[
        "type,client,tx,amount",
        "deposit,22,5,2",
        "deposit,22,6,2",
        "deposit,22,7,2",
        "deposit,22,8,2",
    ]);
    let accs = p.update_accounts(&first, &rows).expect("second run succeeds");

    let account = account_for(&accs, client_id);
    assert_eq!(account.client_id, client_id);
    assert_eq!(account.available, du(12, 0));
    assert_eq!(account.held, du(0, 0));
    assert_eq!(account.total, du(12, 0));
    assert!(!account.locked);
}
