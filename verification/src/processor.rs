//! The pipeline core: groups decoded rows by client, replays each
//! client's rows in input order against its account — fresh or carried
//! over from an earlier run — and that client's durable history, and
//! hands the finished accounts back for snapshot emission. Reading
//! input bytes and writing output files stay outside; everything that
//! decides lives here.
use vstd::prelude::*;

use crate::account::account_wf;
use crate::account::hist_wf;
use crate::account::lemma_run_append;
use crate::account::lemma_run_wf;
use crate::account::spec_new_account;
use crate::account::spec_run;
use crate::account::spec_snapshot_row_of;
use crate::account::spec_step;
use crate::account::Account;
use crate::account::TxRec;
use crate::error::AppError;
use crate::tx_cluster::lemma_clients_complete;
use crate::tx_cluster::lemma_group_is_filter;
use crate::tx_cluster::spec_clients;
use crate::tx_cluster::spec_group;
use crate::tx_cluster::TxCluster;
use crate::tx_history::TxHistory;
use crate::tx_row::TxRow;

verus! {

/// Rows per splitter block; a block is handed off when it is full.
pub const BLOCK_SIZE: usize = 1000000;

pub struct Transactions;

impl Transactions {
    /// Groups a batch of rows by client, keeping input order per client.
    pub fn group_txns_by_client(rows: &Vec<TxRow>) -> (r: TxCluster)
        ensures
            r.inv(),
            r.contents() == spec_group(rows@),
            r.client_list() == spec_clients(rows@),
    {
        let mut cluster = TxCluster::new();
        let mut i: usize = 0;
        while i < rows.len()
            invariant
                0 <= i <= rows@.len(),
                cluster.inv(),
                cluster.contents() == spec_group(rows@.subrange(0, i as int)),
                cluster.client_list() == spec_clients(rows@.subrange(0, i as int)),
            decreases rows@.len() - i,
        {
            proof {
                assert(rows@.subrange(0, i as int + 1).drop_last() =~= rows@.subrange(
                    0,
                    i as int,
                ));
                assert(rows@.subrange(0, i as int + 1).last() == rows@[i as int]);
            }
            cluster.add(rows[i]);
            i = i + 1;
        }
        proof {
            assert(rows@.subrange(0, i as int) =~= rows@);
        }
        cluster
    }
}

/// Blocks joined back together, in order.
pub open spec fn spec_join_blocks(bs: Seq<Seq<TxRow>>) -> Seq<TxRow>
    decreases bs.len(),
{
    if bs.len() == 0 {
        Seq::empty()
    } else {
        spec_join_blocks(bs.drop_last()) + bs.last()
    }
}

/// The view of a vector of blocks.
pub open spec fn blocks_view(bs: Seq<Vec<TxRow>>) -> Seq<Seq<TxRow>> {
    bs.map_values(|b: Vec<TxRow>| b@)
}

/// Cuts a batch into blocks at the row-count ceiling: joining the blocks
/// gives the batch back, every block but the last holds exactly
/// `block_size` rows, and none is empty. `BLOCK_SIZE` is the pipeline's
/// ceiling; the composition laws (`lemma_run_append`,
/// `lemma_group_across_blocks`) say block-wise processing equals
/// processing the whole batch.
pub fn split_blocks(rows: &Vec<TxRow>, block_size: usize) -> (r: Vec<Vec<TxRow>>)
    requires
        block_size >= 1,
    ensures
        spec_join_blocks(blocks_view(r@)) == rows@,
        forall|i: int| 0 <= i < r@.len() ==> (#[trigger] r@[i])@.len() <= block_size,
        forall|i: int| 0 <= i < r@.len() - 1 ==> (#[trigger] r@[i])@.len() == block_size,
        forall|i: int| 0 <= i < r@.len() ==> (#[trigger] r@[i])@.len() >= 1,
{
    let mut out: Vec<Vec<TxRow>> = Vec::new();
    let mut cur: Vec<TxRow> = Vec::new();
    let mut i: usize = 0;
    while i < rows.len()
        invariant
            0 <= i <= rows@.len(),
            block_size >= 1,
            cur@.len() < block_size,
            spec_join_blocks(blocks_view(out@)) + cur@ == rows@.subrange(0, i as int),
            forall|k: int| 0 <= k < out@.len() ==> (#[trigger] out@[k])@.len() == block_size,
        decreases rows@.len() - i,
    {
        proof {
            assert(rows@.subrange(0, i as int + 1) =~= rows@.subrange(0, i as int).push(
                rows@[i as int],
            ));
        }
        let ghost cur_old = cur@;
        cur.push(rows[i]);
        i = i + 1;
        proof {
            assert(cur@ =~= cur_old.push(rows@[i as int - 1]));
            assert(spec_join_blocks(blocks_view(out@)) + cur@ =~= (spec_join_blocks(
                blocks_view(out@),
            ) + cur_old).push(rows@[i as int - 1]));
            assert(spec_join_blocks(blocks_view(out@)) + cur@ =~= rows@.subrange(0, i as int));
        }
        if cur.len() == block_size {
            let full = cur;
            cur = Vec::new();
            proof {
                assert(blocks_view(out@.push(full)).drop_last() =~= blocks_view(out@));
                assert(blocks_view(out@.push(full)).last() == full@);
            }
            out.push(full);
            proof {
                assert(spec_join_blocks(blocks_view(out@)) + cur@ =~= rows@.subrange(
                    0,
                    i as int,
                ));
            }
        }
    }
    proof {
        assert(rows@.subrange(0, i as int) =~= rows@);
    }
    if cur.len() > 0 {
        proof {
            assert(blocks_view(out@.push(cur)).drop_last() =~= blocks_view(out@));
            assert(blocks_view(out@.push(cur)).last() == cur@);
        }
        out.push(cur);
        proof {
            assert(spec_join_blocks(blocks_view(out@)) =~= rows@);
        }
    } else {
        proof {
            assert(spec_join_blocks(blocks_view(out@)) + cur@ =~= spec_join_blocks(
                blocks_view(out@),
            ));
        }
    }
    out
}

/// Position of the last `b` in `s`, or -1.
pub open spec fn spec_last_pos(s: Seq<u8>, b: u8) -> int
    decreases s.len(),
{
    if s.len() == 0 {
        -1
    } else if s.last() == b {
        s.len() - 1
    } else {
        spec_last_pos(s.drop_last(), b)
    }
}

/// Position of the first `b` in `s`, or -1.
pub open spec fn spec_first_pos(s: Seq<u8>, b: u8) -> int
    decreases s.len(),
{
    if s.len() == 0 {
        -1
    } else if s[0] == b {
        0
    } else {
        let p = spec_first_pos(s.drop_first(), b);
        if p == -1 {
            -1
        } else {
            p + 1
        }
    }
}

/// The working directory derived from an input path: `base`, a slash,
/// and the input's file stem (its last path segment up to the first
/// dot). An empty file name is rejected.
pub open spec fn spec_csv_base_dir(source: Seq<u8>, base: Seq<u8>) -> Option<Seq<u8>> {
    let cut = spec_last_pos(source, 47);
    let name = source.subrange(cut + 1, source.len() as int);
    if name.len() == 0 {
        None
    } else {
        let dot = spec_first_pos(name, 46);
        let stem = if dot == -1 {
            name
        } else {
            name.subrange(0, dot)
        };
        Some(base + seq![47u8] + stem)
    }
}

/// The fixed data roots the pipeline works under.
pub open spec fn spec_summary_base() -> Seq<u8> {
    seq![100u8, 97, 116, 97, 47, 115, 117, 109, 109, 97, 114, 121]  // data/summary
}

pub open spec fn spec_transaction_dir() -> Seq<u8> {
    seq![100u8, 97, 116, 97, 47, 116, 114, 97, 110, 115, 97, 99, 116, 105, 111, 110,
    ]  // data/transaction
}

/// An account is acceptable as the outcome of `rows` from `seed` when
/// it is the run of the seed client's rows, in order, from the seed and
/// some well-formed starting history (whatever the disk held).
pub open spec fn client_outcome_from(seed: Account, rows: Seq<TxRow>, acc: Account) -> bool {
    exists|h0: Map<u32, TxRec>|
        hist_wf(h0) && acc == spec_run(
            seed,
            h0,
            rows.filter(|r: TxRow| r.client_id == seed.client_id),
        ).0
}

/// The fresh-start outcome: zero balances, unlocked.
pub open spec fn client_outcome(c: u16, rows: Seq<TxRow>, acc: Account) -> bool {
    client_outcome_from(spec_new_account(c), rows, acc)
}

/// The account a continuation run starts client `c` from: the seed
/// carried over for `c`, or a fresh account when none is.
pub open spec fn spec_seed(seeds: Seq<Account>, c: u16) -> Account {
    if exists|i: int| 0 <= i < seeds.len() && (#[trigger] seeds[i]).client_id == c {
        seeds[choose|i: int| 0 <= i < seeds.len() && (#[trigger] seeds[i]).client_id == c]
    } else {
        spec_new_account(c)
    }
}

/// Seeds carry one account per client, each well formed.
pub open spec fn seeds_wf(seeds: Seq<Account>) -> bool {
    &&& (forall|i: int| 0 <= i < seeds.len() ==> account_wf(#[trigger] seeds[i]))
    &&& (forall|i: int, j: int|
        0 <= i < j < seeds.len() ==> (#[trigger] seeds[i]).client_id != (
        #[trigger] seeds[j]).client_id)
}

/// The seed for one client, exactly `spec_seed`.
fn seed_for(seeds: &Vec<Account>, c: u16) -> (r: Account)
    requires
        seeds_wf(seeds@),
    ensures
        r == spec_seed(seeds@, c),
        account_wf(r),
        r.client_id == c,
{
    let mut i: usize = 0;
    while i < seeds.len()
        invariant
            0 <= i <= seeds@.len(),
            seeds_wf(seeds@),
            forall|k: int| 0 <= k < i ==> (#[trigger] seeds@[k]).client_id != c,
        decreases seeds@.len() - i,
    {
        if seeds[i].client_id == c {
            proof {
                let j = choose|j: int|
                    0 <= j < seeds@.len() && (#[trigger] seeds@[j]).client_id == c;
                assert(seeds@[i as int].client_id == c);
                if j != i {
                    if j < i {
                        assert(seeds@[j].client_id != seeds@[i as int].client_id);
                    } else {
                        assert(seeds@[i as int].client_id != seeds@[j].client_id);
                    }
                }
            }
            return seeds[i];
        }
        i = i + 1;
    }
    proof {
        if exists|j: int| 0 <= j < seeds@.len() && (#[trigger] seeds@[j]).client_id == c {
            let j = choose|j: int|
                0 <= j < seeds@.len() && (#[trigger] seeds@[j]).client_id == c;
            assert(seeds@[j].client_id != c);
        }
    }
    Account::new(c)
}

pub struct Processor {
    summary_dir: Vec<u8>,
    transaction_dir: Vec<u8>,
}

impl Processor {
    /// The per-run working directory, derived from the input path.
    pub closed spec fn spec_summary_dir(&self) -> Seq<u8> {
        self.summary_dir@
    }

    /// Where the per-client histories live.
    pub closed spec fn spec_transaction_dir(&self) -> Seq<u8> {
        self.transaction_dir@
    }

    /// Derives the working directory from the input path; rejects a path
    /// without a file name.
    pub fn new(source_csv_path: &Vec<u8>) -> (r: Result<Processor, AppError>)
        ensures
            match r {
                Ok(p) => Some(p.spec_summary_dir()) == spec_csv_base_dir(
                    source_csv_path@,
                    spec_summary_base(),
                ) && p.spec_transaction_dir() == spec_transaction_dir(),
                Err(_) => spec_csv_base_dir(source_csv_path@, spec_summary_base()) is None,
            },
    {
        let mut base: Vec<u8> = Vec::new();
        base.push(100);
        base.push(97);
        base.push(116);
        base.push(97);
        base.push(47);
        base.push(115);
        base.push(117);
        base.push(109);
        base.push(109);
        base.push(97);
        base.push(114);
        base.push(121);
        proof {
            assert(base@ =~= spec_summary_base());
        }
        let summary_dir = match Self::csv_base_dir(source_csv_path, &base) {
            Ok(d) => d,
            Err(e) => {
                return Err(e);
            },
        };
        let mut tdir: Vec<u8> = Vec::new();
        tdir.push(100);
        tdir.push(97);
        tdir.push(116);
        tdir.push(97);
        tdir.push(47);
        tdir.push(116);
        tdir.push(114);
        tdir.push(97);
        tdir.push(110);
        tdir.push(115);
        tdir.push(97);
        tdir.push(99);
        tdir.push(116);
        tdir.push(105);
        tdir.push(111);
        tdir.push(110);
        proof {
            assert(tdir@ =~= spec_transaction_dir());
        }
        Ok(Processor { summary_dir, transaction_dir: tdir })
    }

    /// A processor with its data roots placed explicitly, for callers
    /// that do not work under the default ones.
    pub fn with_dirs(summary_dir: Vec<u8>, transaction_dir: Vec<u8>) -> (r: Processor)
        ensures
            r.spec_summary_dir() == summary_dir@,
            r.spec_transaction_dir() == transaction_dir@,
    {
        Processor { summary_dir, transaction_dir }
    }

    /// The working directory for this run's snapshot files.
    pub fn summary_dir(&self) -> (r: &Vec<u8>)
        ensures
            r@ == self.spec_summary_dir(),
    {
        &self.summary_dir
    }

    /// The directory the per-client histories live under.
    pub fn transaction_dir(&self) -> (r: &Vec<u8>)
        ensures
            r@ == self.spec_transaction_dir(),
    {
        &self.transaction_dir
    }

    /// Joins `base` with the file stem of `source`, exactly as
    /// `spec_csv_base_dir`; an empty file name is an error.
    pub fn csv_base_dir(source: &Vec<u8>, base: &Vec<u8>) -> (r: Result<Vec<u8>, AppError>)
        ensures
            match r {
                Ok(d) => Some(d@) == spec_csv_base_dir(source@, base@),
                Err(_) => spec_csv_base_dir(source@, base@) is None,
            },
    {
        let n = source.len();
        let cut = last_pos(source.as_slice(), 47);
        let name_start: usize = match cut {
            Some(i) => i + 1,
            None => 0,
        };
        proof {
            assert(name_start <= n);
        }
        let ghost name = source@.subrange(
            spec_last_pos(source@, 47) + 1,
            source@.len() as int,
        );
        proof {
            assert(name_start as int == spec_last_pos(source@, 47) + 1);
        }
        if name_start == source.len() {
            return Err(AppError::new("model/processor", "file_dir", "01", "invalid file path"));
        }
        let name_slice = vstd::slice::slice_subrange(source.as_slice(), name_start, n);
        proof {
            assert(name_slice@ =~= name);
        }
        let dot = first_pos(name_slice, 46);
        let stem_end: usize = match dot {
            Some(i) => i,
            None => name_slice.len(),
        };
        let stem = vstd::slice::slice_subrange(name_slice, 0, stem_end);
        let mut out: Vec<u8> = Vec::new();
        let mut i: usize = 0;
        while i < base.len()
            invariant
                0 <= i <= base@.len(),
                out@ == base@.subrange(0, i as int),
            decreases base@.len() - i,
        {
            out.push(base[i]);
            proof {
                assert(out@ =~= base@.subrange(0, i as int + 1));
            }
            i = i + 1;
        }
        proof {
            assert(out@ =~= base@);
        }
        out.push(47);
        let mut j: usize = 0;
        while j < stem.len()
            invariant
                0 <= j <= stem@.len(),
                out@ == base@ + seq![47u8] + stem@.subrange(0, j as int),
            decreases stem@.len() - j,
        {
            out.push(stem[j]);
            proof {
                assert(out@ =~= base@ + seq![47u8] + stem@.subrange(0, j as int + 1));
            }
            j = j + 1;
        }
        proof {
            assert(stem@.subrange(0, stem@.len() as int) =~= stem@);
            let dotg = spec_first_pos(name, 46);
            if dotg == -1 {
                assert(stem@ =~= name);
            } else {
                assert(stem@ =~= name.subrange(0, dotg));
            }
        }
        Ok(out)
    }

    /// Groups one batch of rows by client, as the splitter does.
    pub fn cluster_transactions(&self, rows: &Vec<TxRow>) -> (r: TxCluster)
        ensures
            r.inv(),
            r.contents() == spec_group(rows@),
            r.client_list() == spec_clients(rows@),
    {
        Transactions::group_txns_by_client(rows)
    }

    /// Runs the whole batch: one account per client, in first-seen
    /// order, each the replay of that client's rows in input order from
    /// zero balances and its durable history. An error is a
    /// durable-layer failure; the run stops with it.
    pub fn process_data(&self, rows: &Vec<TxRow>) -> (r: Result<Vec<Account>, AppError>)
        ensures
            r matches Ok(accs) ==> {
                &&& accs@.len() == spec_clients(rows@).len()
                &&& (forall|i: int|
                    0 <= i < accs@.len() ==> (#[trigger] accs@[i]).client_id == spec_clients(
                        rows@,
                    )[i])
                &&& (forall|i: int| 0 <= i < accs@.len() ==> account_wf(#[trigger] accs@[i]))
                &&& (forall|i: int|
                    0 <= i < accs@.len() ==> client_outcome(
                        spec_clients(rows@)[i],
                        rows@,
                        #[trigger] accs@[i],
                    ))
            },
            rows@.len() == 0 ==> r is Ok,
    {
        let seeds: Vec<Account> = Vec::new();
        let out = self.update_accounts(&seeds, rows);
        proof {
            if out is Ok {
                let accs = out.unwrap();
                assert forall|i: int| 0 <= i < accs@.len() implies client_outcome(
                    spec_clients(rows@)[i],
                    rows@,
                    #[trigger] accs@[i],
                ) by {
                    assert(spec_seed(seeds@, spec_clients(rows@)[i]) == spec_new_account(
                        spec_clients(rows@)[i],
                    ));
                }
            }
        }
        out
    }

    /// Continues a run: every client starts from its carried-over
    /// account (or a fresh one), then replays its rows in input order
    /// against its durable history.
    pub fn update_accounts(&self, seeds: &Vec<Account>, rows: &Vec<TxRow>) -> (r: Result<
        Vec<Account>,
        AppError,
    >)
        requires
            seeds_wf(seeds@),
        ensures
            r matches Ok(accs) ==> {
                &&& accs@.len() == spec_clients(rows@).len()
                &&& (forall|i: int|
                    0 <= i < accs@.len() ==> (#[trigger] accs@[i]).client_id == spec_clients(
                        rows@,
                    )[i])
                &&& (forall|i: int| 0 <= i < accs@.len() ==> account_wf(#[trigger] accs@[i]))
                &&& (forall|i: int|
                    0 <= i < accs@.len() ==> client_outcome_from(
                        spec_seed(seeds@, spec_clients(rows@)[i]),
                        rows@,
                        #[trigger] accs@[i],
                    ))
            },
            rows@.len() == 0 ==> r is Ok,
    {
        let cluster = Transactions::group_txns_by_client(rows);
        let clients = cluster.client_ids();
        let mut accs: Vec<Account> = Vec::new();
        let mut i: usize = 0;
        while i < clients.len()
            invariant
                0 <= i <= clients@.len(),
                clients@ == spec_clients(rows@),
                cluster.inv(),
                cluster.contents() == spec_group(rows@),
                cluster.client_list() == spec_clients(rows@),
                seeds_wf(seeds@),
                accs@.len() == i,
                forall|k: int|
                    0 <= k < i ==> (#[trigger] accs@[k]).client_id == spec_clients(rows@)[k],
                forall|k: int| 0 <= k < i ==> account_wf(#[trigger] accs@[k]),
                forall|k: int|
                    0 <= k < i ==> client_outcome_from(
                        spec_seed(seeds@, spec_clients(rows@)[k]),
                        rows@,
                        #[trigger] accs@[k],
                    ),
            decreases clients@.len() - i,
        {
            let c = clients[i];
            let start = seed_for(seeds, c);
            let account = match self.run_client(start, &cluster) {
                Ok(a) => a,
                Err(e) => {
                    return Err(e);
                },
            };
            proof {
                assert(spec_clients(rows@).contains(c)) by {
                    assert(spec_clients(rows@)[i as int] == c);
                }
                lemma_clients_complete(rows@, c);
                lemma_group_is_filter(rows@, c);
                let h0 = choose|h0: Map<u32, TxRec>|
                    hist_wf(h0) && account == spec_run(
                        start,
                        h0,
                        if cluster.contents().contains_key(c) {
                            cluster.contents()[c]
                        } else {
                            Seq::<TxRow>::empty()
                        },
                    ).0;
                assert(hist_wf(h0) && account == spec_run(
                    start,
                    h0,
                    rows@.filter(|r: TxRow| r.client_id == c),
                ).0);
                assert(client_outcome_from(spec_seed(seeds@, c), rows@, account));
            }
            accs.push(account);
            i = i + 1;
        }
        Ok(accs)
    }

    /// Replays one client's rows from a starting account against that
    /// client's durable history.
    fn run_client(&self, start: Account, cluster: &TxCluster) -> (r: Result<Account, AppError>)
        requires
            cluster.inv(),
            account_wf(start),
        ensures
            r matches Ok(acc) ==> {
                &&& acc.client_id == start.client_id
                &&& account_wf(acc)
                &&& (exists|h0: Map<u32, TxRec>|
                    hist_wf(h0) && acc == spec_run(
                        start,
                        h0,
                        if cluster.contents().contains_key(start.client_id) {
                            cluster.contents()[start.client_id]
                        } else {
                            Seq::<TxRow>::empty()
                        },
                    ).0)
            },
    {
        let c = start.client_id;
        let mut account = start;
        let mut history = match TxHistory::new(c, &self.transaction_dir) {
            Ok(h) => h,
            Err(e) => {
                return Err(e);
            },
        };
        let ghost h0 = history.contents();
        match cluster.rows_for(&c) {
            None => {
                proof {
                    history.lemma_contents_wf();
                    assert(spec_run(start, h0, Seq::<TxRow>::empty()).0 == account);
                }
                Ok(account)
            },
            Some(rows_c) => {
                proof {
                    cluster.lemma_rows_owned(c);
                    history.lemma_contents_wf();
                }
                match Self::process_shard(&mut account, &mut history, rows_c) {
                    Ok(()) => {
                        match history.flush() {
                            Ok(()) => Ok(account),
                            Err(e) => Err(e),
                        }
                    },
                    Err(e) => Err(e),
                }
            },
        }
    }

    /// Applies one client's shard to its account and history, in order:
    /// on success the pair is exactly the run of the shard from where it
    /// stood. An error is a durable-layer failure; the account stops at
    /// the last fully applied event.
    pub fn process_shard(
        account: &mut Account,
        history: &mut TxHistory,
        rows: &Vec<TxRow>,
    ) -> (r: Result<(), AppError>)
        requires
            account_wf(*old(account)),
            old(history).inv(),
            old(history).client() == old(account).client_id,
            forall|i: int|
                0 <= i < rows@.len() ==> (#[trigger] rows@[i]).client_id == old(
                    account,
                ).client_id,
        ensures
            final(history).inv(),
            final(history).client() == old(history).client(),
            account_wf(*final(account)),
            final(account).client_id == old(account).client_id,
            r is Ok ==> (*final(account), final(history).contents()) == spec_run(
                *old(account),
                old(history).contents(),
                rows@,
            ),
            rows@.len() == 0 ==> r is Ok,
    {
        let ghost start = *account;
        let ghost h0 = history.contents();
        let ghost shard = rows@;
        let ghost c = start.client_id;
        proof {
            history.lemma_contents_wf();
        }
        let mut j: usize = 0;
        while j < rows.len()
            invariant
                0 <= j <= shard.len(),
                rows@ == shard,
                forall|i: int| 0 <= i < shard.len() ==> (#[trigger] shard[i]).client_id == c,
                history.inv(),
                history.client() == c,
                account_wf(*account),
                account.client_id == c,
                account_wf(start),
                start.client_id == c,
                start == *old(account),
                h0 == old(history).contents(),
                old(history).client() == c,
                hist_wf(h0),
                (*account, history.contents()) == spec_run(
                    start,
                    h0,
                    shard.subrange(0, j as int),
                ),
            decreases shard.len() - j,
        {
            let row = rows[j];
            proof {
                assert(row.client_id == c);
                assert(shard.subrange(0, j as int + 1) =~= shard.subrange(0, j as int)
                    + seq![row]);
                lemma_run_append(start, h0, shard.subrange(0, j as int), seq![row]);
                assert(seq![row].drop_first() =~= Seq::<TxRow>::empty());
                lemma_run_wf(start, h0, shard.subrange(0, j as int));
            }
            let step = account.handle_tx(&row.type_id, &row.tx_id, &row.amount, history);
            match step {
                Ok(()) => {
                    proof {
                        assert(TxRow {
                            type_id: row.type_id,
                            client_id: c,
                            tx_id: row.tx_id,
                            amount: row.amount,
                        } == row);
                        let prev = spec_run(start, h0, shard.subrange(0, j as int));
                        let sres = spec_step(prev.0, prev.1, row);
                        assert(seq![row][0] == row);
                        assert(spec_run(prev.0, prev.1, seq![row]) == spec_run(
                            sres.0,
                            sres.1,
                            seq![row].drop_first(),
                        ));
                        assert(spec_run(sres.0, sres.1, Seq::<TxRow>::empty()) == sres);
                        assert((*account, history.contents()) == sres);
                    }
                    j = j + 1;
                },
                Err(e) => {
                    return Err(e);
                },
            }
        }
        proof {
            assert(shard.subrange(0, j as int) =~= shard);
        }
        Ok(())
    }

    /// The snapshot rows of finished accounts, one row per account, in
    /// the accounts' own order.
    pub fn show_accounts(accounts: &Vec<Account>) -> (r: Vec<Vec<u8>>)
        requires
            forall|i: int| 0 <= i < accounts@.len() ==> account_wf(#[trigger] accounts@[i]),
        ensures
            r@.len() == accounts@.len(),
            forall|i: int|
                0 <= i < accounts@.len() ==> (#[trigger] r@[i])@ == spec_snapshot_row_of(
                    accounts@[i],
                ),
    {
        let mut out: Vec<Vec<u8>> = Vec::new();
        let mut i: usize = 0;
        while i < accounts.len()
            invariant
                0 <= i <= accounts@.len(),
                forall|k: int| 0 <= k < accounts@.len() ==> account_wf(#[trigger] accounts@[k]),
                out@.len() == i,
                forall|k: int|
                    0 <= k < i ==> (#[trigger] out@[k])@ == spec_snapshot_row_of(accounts@[k]),
            decreases accounts@.len() - i,
        {
            let row = accounts[i].snapshot_row();
            out.push(row);
            i = i + 1;
        }
        out
    }
}

/// Position of the last `b` in `s`, as `spec_last_pos`.
pub(crate) fn last_pos(s: &[u8], b: u8) -> (r: Option<usize>)
    ensures
        match r {
            Some(i) => spec_last_pos(s@, b) == i as int && i < s@.len(),
            None => spec_last_pos(s@, b) == -1,
        },
{
    let mut k: usize = s.len();
    proof {
        assert(s@.subrange(0, s@.len() as int) =~= s@);
    }
    while k > 0
        invariant
            0 <= k <= s@.len(),
            spec_last_pos(s@, b) == spec_last_pos(s@.subrange(0, k as int), b),
        decreases k,
    {
        proof {
            assert(s@.subrange(0, k as int).drop_last() =~= s@.subrange(0, k as int - 1));
        }
        if s[k - 1] == b {
            return Some(k - 1);
        }
        k = k - 1;
    }
    None
}

/// Position of the first `b` in `s`, as `spec_first_pos`.
fn first_pos(s: &[u8], b: u8) -> (r: Option<usize>)
    ensures
        match r {
            Some(i) => spec_first_pos(s@, b) == i as int && i < s@.len(),
            None => spec_first_pos(s@, b) == -1,
        },
{
    let mut k: usize = 0;
    while k < s.len()
        invariant
            0 <= k <= s@.len(),
            forall|j: int| 0 <= j < k ==> s@[j] != b,
        decreases s@.len() - k,
    {
        if s[k] == b {
            proof {
                lemma_first_pos_found(s@, b, k as int);
            }
            return Some(k);
        }
        k = k + 1;
    }
    proof {
        lemma_first_pos_missing(s@, b);
    }
    None
}

proof fn lemma_first_pos_found(s: Seq<u8>, b: u8, i: int)
    requires
        0 <= i < s.len(),
        s[i] == b,
        forall|j: int| 0 <= j < i ==> s[j] != b,
    ensures
        spec_first_pos(s, b) == i,
    decreases s.len(),
{
    if s[0] == b {
    } else {
        lemma_first_pos_found(s.drop_first(), b, i - 1);
    }
}

proof fn lemma_first_pos_missing(s: Seq<u8>, b: u8)
    requires
        forall|j: int| 0 <= j < s.len() ==> s[j] != b,
    ensures
        spec_first_pos(s, b) == -1,
    decreases s.len(),
{
    if s.len() > 0 {
        lemma_first_pos_missing(s.drop_first(), b);
    }
}

} // verus!
