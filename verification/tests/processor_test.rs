use txledger::codec::decode_fields;
use txledger::codec::header_row;
use txledger::codec::split_fields;
use txledger::processor::Transactions;
use txledger::tx_row::TxRow;
use txledger::tx_row::TxRowType;

fn decode_lines(lines: &[&str]) -> Vec<TxRow> {
    let mut rows: Vec<TxRow> = Vec::new();
    for (i, line) in lines.iter().enumerate() {
        let fields = split_fields(line.as_bytes());
        if i == 0 && header_row(&fields) {
            continue;
        }
        rows.push(decode_fields(&fields).expect("row must decode"));
    }
    rows
}

fn du(m: i128, s: u32) -> i128 {
    m * 10i128.pow(4 - s)
}

fn check_row(row: &TxRow, kind: TxRowType, client: u16, tx: u32, amount: i128) {
    assert_eq!(row.type_id, kind);
    assert_eq!(row.client_id, client);
    assert_eq!(row.tx_id, tx);
    assert_eq!(row.amount, amount);
}

#[test]
fn processor_test_process_deposit_test() {
    let rows = decode_lines(&[
        "type,client,tx,amount",
        "deposit,1,1,1",
        "deposit,2,2,1",
        "deposit,3,3,1",
        "deposit,4,4,1",
        "deposit,4,5,2",
        "deposit,2,6,2",
        "deposit,3,7,2",
        "deposit,1,8,2",
    ]);
    let cluster = Transactions::group_txns_by_client(&rows);
    assert_eq!(cluster.len(), 4);

    let shard = cluster.rows_for(&1).expect("client 1 has rows");
    assert_eq!(shard.len(), 2);
    check_row(&shard[0], TxRowType::DEPOSIT, 1, 1, du(1, 0));
    check_row(&shard[1], TxRowType::DEPOSIT, 1, 8, du(2, 0));

    let shard = cluster.rows_for(&2).expect("client 2 has rows");
    assert_eq!(shard.len(), 2);
    check_row(&shard[0], TxRowType::DEPOSIT, 2, 2, du(1, 0));
    check_row(&shard[1], TxRowType::DEPOSIT, 2, 6, du(2, 0));

    let shard = cluster.rows_for(&3).expect("client 3 has rows");
    assert_eq!(shard.len(), 2);
    check_row(&shard[0], TxRowType::DEPOSIT, 3, 3, du(1, 0));
    check_row(&shard[1], TxRowType::DEPOSIT, 3, 7, du(2, 0));

    let shard = cluster.rows_for(&4).expect("client 4 has rows");
    assert_eq!(shard.len(), 2);
    check_row(&shard[0], TxRowType::DEPOSIT, 4, 4, du(1, 0));
    check_row(&shard[1], TxRowType::DEPOSIT, 4, 5, du(2, 0));
}

#[test]
fn processor_test_process_withdraw_test() {
    let rows = decode_lines(&[
        "type,client,tx,amount",
        "withdraw,1,1,5",
        "deposit,1,2,2",
        "withdraw,1,3,3",
        "deposit,1,4,2",
        "withdraw,1,5,1",
        "deposit,1,6,2",
        "withdraw,1,7,1",
        "deposit,1,1,5",
    ]);
    let cluster = Transactions::group_txns_by_client(&rows);
    assert_eq!(cluster.len(), 1);

    let shard = cluster.rows_for(&1).expect("client 1 has rows");
    assert_eq!(shard.len(), 8);
    check_row(&shard[0], TxRowType::WITHDRAW, 1, 1, du(5, 0));
    check_row(&shard[1], TxRowType::DEPOSIT, 1, 2, du(2, 0));
    check_row(&shard[2], TxRowType::WITHDRAW, 1, 3, du(3, 0));
    check_row(&shard[3], TxRowType::DEPOSIT, 1, 4, du(2, 0));
    check_row(&shard[4], TxRowType::WITHDRAW, 1, 5, du(1, 0));
    check_row(&shard[5], TxRowType::DEPOSIT, 1, 6, du(2, 0));
    check_row(&shard[6], TxRowType::WITHDRAW, 1, 7, du(1, 0));
    check_row(&shard[7], TxRowType::DEPOSIT, 1, 1, du(5, 0));
}

#[test]
fn blocks_cut_at_the_ceiling_and_join_back() {
    let rows = decode_lines(&[
        "deposit,1,1,1",
        "deposit,2,2,1",
        "deposit,1,3,2",
        "withdrawal,2,4,1",
        "deposit,3,5,1",
        "dispute,1,1",
        "resolve,1,1",
        "deposit,3,6,2",
    ]);
    let blocks = txledger::processor::split_blocks(&rows, 3);
    assert_eq!(blocks.len(), 3);
    assert_eq!(blocks[0].len(), 3);
    assert_eq!(blocks[1].len(), 3);
    assert_eq!(blocks[2].len(), 2);
    let joined: Vec<TxRow> = blocks.into_iter().flatten().collect();
    assert_eq!(joined, rows);

    let one = txledger::processor::split_blocks(&rows, 100);
    assert_eq!(one.len(), 1);
    assert_eq!(one[0], rows);

    let none = txledger::processor::split_blocks(&Vec::new(), 3);
    assert!(none.is_empty());
}
