//! The per-client transaction history: a durable keyed store from
//! transaction id to its recorded row and dispute state, fronted by a
//! write-through in-memory cache. The durable layer is the source of
//! truth; the cache never disagrees with it.
use vstd::prelude::*;

use crate::account::hist_wf;
use crate::account::rec_wf;
use crate::account::TxRec;
use crate::amount::BAL_LIMIT;
use crate::codec::fields_view;
use crate::codec::lemma_split_append_comma;
use crate::codec::lemma_split_append_field;
use crate::codec::spec_split;
use crate::codec::split_fields;
use crate::codec::COMMA;
use crate::digits::all_dec_digits;
use crate::digits::dec_digits;
use crate::digits::dec_value;
use crate::digits::lemma_dec_digits_roundtrip;
use crate::digits::parse_dec;
use crate::digits::u128_to_dec;
use crate::error::AppError;
use crate::store::db_contents;
use crate::store::db_path;
use crate::store::db_flush;
use crate::store::db_get;
use crate::store::db_insert;
use crate::store::db_open;
use crate::store::db_clear;
use crate::tx_row::TxRowType;
use vstd::hash_map::HashMapWithView;

verus! {

/// One-byte tag of a stored row's kind.
pub open spec fn kind_tag(k: TxRowType) -> u8 {
    match k {
        TxRowType::DEPOSIT => 100,  // d
        TxRowType::WITHDRAW => 119,  // w
        _ => 0,
    }
}

/// One-byte tag of a dispute state.
pub open spec fn state_tag(k: TxRowType) -> u8 {
    match k {
        TxRowType::NONE => 110,  // n
        TxRowType::DISPUTE => 100,  // d
        TxRowType::RESOLVE => 114,  // r
        TxRowType::CHARGEBACK => 99,  // c
        _ => 0,
    }
}

/// The stored form of a record: `kind,client,amount,state`.
pub open spec fn spec_ser_rec(r: TxRec) -> Seq<u8> {
    seq![kind_tag(r.type_id)] + seq![COMMA] + dec_digits(r.client_id as nat) + seq![COMMA]
        + dec_digits(r.amount as nat) + seq![COMMA] + seq![state_tag(r.state_id)]
}

/// Reads a stored record back; `None` unless the bytes are exactly a
/// storable record.
pub open spec fn spec_parse_rec(v: Seq<u8>) -> Option<TxRec> {
    let f = spec_split(v);
    if f.len() != 4 {
        None
    } else if !(f[0].len() == 1 && (f[0][0] == 100 || f[0][0] == 119)) {
        None
    } else if !(f[1].len() >= 1 && all_dec_digits(f[1]) && dec_value(f[1]) <= u16::MAX) {
        None
    } else if !(f[2].len() >= 1 && all_dec_digits(f[2]) && 0 < dec_value(f[2]) <= BAL_LIMIT as int) {
        None
    } else if !(f[3].len() == 1 && (f[3][0] == 110 || f[3][0] == 100 || f[3][0] == 114 || f[3][0]
        == 99)) {
        None
    } else {
        Some(
            TxRec {
                type_id: if f[0][0] == 100 {
                    TxRowType::DEPOSIT
                } else {
                    TxRowType::WITHDRAW
                },
                client_id: dec_value(f[1]) as u16,
                amount: dec_value(f[2]) as i128,
                state_id: if f[3][0] == 110 {
                    TxRowType::NONE
                } else if f[3][0] == 100 {
                    TxRowType::DISPUTE
                } else if f[3][0] == 114 {
                    TxRowType::RESOLVE
                } else {
                    TxRowType::CHARGEBACK
                },
            },
        )
    }
}

/// Whatever parses is a storable record.
pub proof fn lemma_parse_rec_wf(v: Seq<u8>)
    ensures
        spec_parse_rec(v) is Some ==> rec_wf(spec_parse_rec(v).unwrap()),
{
}

/// Serialization is exact: a storable record reads back as itself.
pub proof fn lemma_rec_roundtrip(r: TxRec)
    requires
        rec_wf(r),
    ensures
        spec_parse_rec(spec_ser_rec(r)) == Some(r),
{
    let a = seq![kind_tag(r.type_id)];
    let b = dec_digits(r.client_id as nat);
    let c = dec_digits(r.amount as nat);
    let d = seq![state_tag(r.state_id)];
    lemma_dec_digits_roundtrip(r.client_id as nat);
    lemma_dec_digits_roundtrip(r.amount as nat);
    assert(forall|i: int| 0 <= i < a.len() ==> #[trigger] a[i] != COMMA);
    assert(forall|i: int| 0 <= i < b.len() ==> #[trigger] b[i] != COMMA);
    assert(forall|i: int| 0 <= i < c.len() ==> #[trigger] c[i] != COMMA);
    assert(forall|i: int| 0 <= i < d.len() ==> #[trigger] d[i] != COMMA);
    let s1 = a;
    let s2 = s1 + seq![COMMA];
    let s3 = s2 + b;
    let s4 = s3 + seq![COMMA];
    let s5 = s4 + c;
    let s6 = s5 + seq![COMMA];
    let s7 = s6 + d;
    assert(s7 =~= spec_ser_rec(r));
    assert(Seq::<u8>::empty() + a =~= a);
    lemma_split_append_field(Seq::<u8>::empty(), a);
    assert(spec_split(s1) =~= seq![a]);
    lemma_split_append_comma(s1);
    lemma_split_append_field(s2, b);
    assert(Seq::<u8>::empty() + b =~= b);
    assert(spec_split(s3) =~= seq![a, b]);
    lemma_split_append_comma(s3);
    lemma_split_append_field(s4, c);
    assert(Seq::<u8>::empty() + c =~= c);
    assert(spec_split(s5) =~= seq![a, b, c]);
    lemma_split_append_comma(s5);
    lemma_split_append_field(s6, d);
    assert(Seq::<u8>::empty() + d =~= d);
    assert(spec_split(s7) =~= seq![a, b, c, d]);
    assert(dec_value(b) == r.client_id);
    assert(dec_value(c) == r.amount);
}

/// Builds the stored form of a record.
fn ser_rec(r: &TxRec) -> (out: Vec<u8>)
    requires
        rec_wf(*r),
    ensures
        out@ == spec_ser_rec(*r),
{
    let mut out: Vec<u8> = Vec::new();
    let kt: u8 = match r.type_id {
        TxRowType::DEPOSIT => 100,
        TxRowType::WITHDRAW => 119,
        _ => 0,
    };
    out.push(kt);
    out.push(COMMA);
    let mut part = u128_to_dec(r.client_id as u128);
    out.append(&mut part);
    out.push(COMMA);
    let mut part = u128_to_dec(r.amount as u128);
    out.append(&mut part);
    out.push(COMMA);
    let st: u8 = match r.state_id {
        TxRowType::NONE => 110,
        TxRowType::DISPUTE => 100,
        TxRowType::RESOLVE => 114,
        TxRowType::CHARGEBACK => 99,
        _ => 0,
    };
    out.push(st);
    proof {
        assert(out@ =~= spec_ser_rec(*r));
    }
    out
}

/// The durable key of a transaction: its decimal notation.
pub open spec fn spec_tx_key(t: u32) -> Seq<u8> {
    dec_digits(t as nat)
}

fn tx_key(t: u32) -> (r: Vec<u8>)
    ensures
        r@ == spec_tx_key(t),
{
    u128_to_dec(t as u128)
}

/// The logical map a tree holds: every key that is a transaction's
/// decimal notation and whose value parses as a storable record.
pub open spec fn store_view(db: sled::Db) -> Map<u32, TxRec> {
    Map::new(
        |t: u32|
            db_contents(db).contains_key(spec_tx_key(t)) && spec_parse_rec(
                db_contents(db)[spec_tx_key(t)],
            ) is Some,
        |t: u32| spec_parse_rec(db_contents(db)[spec_tx_key(t)]).unwrap(),
    )
}

/// Writing one record moves the logical map by exactly one binding.
proof fn lemma_store_view_insert(db_old: sled::Db, db_new: sled::Db, t: u32, rec: TxRec)
    requires
        rec_wf(rec),
        db_contents(db_new) == db_contents(db_old).insert(spec_tx_key(t), spec_ser_rec(rec)),
    ensures
        store_view(db_new) == store_view(db_old).insert(t, rec),
{
    lemma_rec_roundtrip(rec);
    assert forall|t2: u32| t2 != t implies spec_tx_key(t2) != spec_tx_key(t) by {
        if spec_tx_key(t2) == spec_tx_key(t) {
            lemma_dec_digits_roundtrip(t2 as nat);
            lemma_dec_digits_roundtrip(t as nat);
        }
    }
    assert forall|t2: u32| #[trigger]
        store_view(db_new).contains_key(t2) == store_view(db_old).insert(
            t,
            rec,
        ).contains_key(t2) && (store_view(db_new).contains_key(t2) ==> store_view(db_new)[t2]
        == store_view(db_old).insert(t, rec)[t2]) by {
        if t2 == t {
            assert(db_contents(db_new)[spec_tx_key(t)] == spec_ser_rec(rec));
        } else {
            assert(db_contents(db_new).contains_key(spec_tx_key(t2)) == db_contents(
                db_old,
            ).contains_key(spec_tx_key(t2)));
        }
    }
    assert(store_view(db_new) =~= store_view(db_old).insert(t, rec));
}

/// A legal dispute-state move: a clean record may be disputed; a
/// disputed one may be resolved or charged back.
pub open spec fn legal_transition(from: TxRowType, to: TxRowType) -> bool {
    (from == TxRowType::NONE && to == TxRowType::DISPUTE) || (from == TxRowType::DISPUTE && (to
        == TxRowType::RESOLVE || to == TxRowType::CHARGEBACK))
}

/// What `set_tx` decides and stores: rejects dispute-family kinds,
/// non-positive or unrepresentable amounts and foreign clients; repeats
/// of the same record are accepted without a write; a conflicting record
/// for a recorded transaction is rejected.
pub open spec fn spec_put(
    myc: u16,
    h: Map<u32, TxRec>,
    kind: TxRowType,
    client: u16,
    tx: u32,
    amount: i128,
) -> (bool, Map<u32, TxRec>) {
    if !(kind == TxRowType::DEPOSIT || kind == TxRowType::WITHDRAW) {
        (false, h)
    } else if !(0 < amount <= BAL_LIMIT as int) {
        (false, h)
    } else if client != myc {
        (false, h)
    } else if h.contains_key(tx) {
        if h[tx].type_id == kind && h[tx].client_id == client && h[tx].amount == amount {
            (true, h)
        } else {
            (false, h)
        }
    } else {
        (
            true,
            h.insert(
                tx,
                TxRec { type_id: kind, client_id: client, amount, state_id: TxRowType::NONE },
            ),
        )
    }
}

/// A fresh deposit or withdrawal of a positive representable amount for
/// the owning client is always accepted: the store then holds exactly
/// that record, clean of disputes, and repeating the identical put
/// succeeds without changing anything.
pub proof fn lemma_put_fresh_record(
    myc: u16,
    h: Map<u32, TxRec>,
    kind: TxRowType,
    client: u16,
    tx: u32,
    amount: i128,
)
    requires
        kind == TxRowType::DEPOSIT || kind == TxRowType::WITHDRAW,
        0 < amount <= BAL_LIMIT as int,
        client == myc,
        !h.contains_key(tx),
    ensures
        ({
            let (ok, h2) = spec_put(myc, h, kind, client, tx, amount);
            &&& ok
            &&& h2.contains_key(tx)
            &&& h2[tx] == (TxRec { type_id: kind, client_id: client, amount, state_id: TxRowType::NONE })
            &&& spec_put(myc, h2, kind, client, tx, amount) == (true, h2)
        }),
{
}

/// What `set_dispute_state` decides and stores: only legal transitions
/// on recorded transactions move the state.
pub open spec fn spec_set_state(h: Map<u32, TxRec>, tx: u32, to: TxRowType) -> (bool, Map<
    u32,
    TxRec,
>) {
    if h.contains_key(tx) && legal_transition(h[tx].state_id, to) {
        (true, h.insert(tx, TxRec { state_id: to, ..h[tx] }))
    } else {
        (false, h)
    }
}

/// The durable root of one client's store under `dir`:
/// `<dir>/<client>_db`.
pub open spec fn spec_store_path(dir: Seq<u8>, client: u16) -> Seq<u8> {
    dir + seq![47u8] + dec_digits(client as nat) + seq![95u8, 100, 98]  // /_db
}

/// Distinct clients get distinct durable roots under one directory, so
/// no client's records can shadow another's.
pub proof fn lemma_store_path_distinct(dir: Seq<u8>, c1: u16, c2: u16)
    requires
        c1 != c2,
    ensures
        spec_store_path(dir, c1) != spec_store_path(dir, c2),
{
    lemma_dec_digits_roundtrip(c1 as nat);
    lemma_dec_digits_roundtrip(c2 as nat);
    let d1 = dec_digits(c1 as nat);
    let d2 = dec_digits(c2 as nat);
    if spec_store_path(dir, c1) == spec_store_path(dir, c2) {
        assert(spec_store_path(dir, c1).len() == dir.len() + 1 + d1.len() + 3);
        assert(spec_store_path(dir, c2).len() == dir.len() + 1 + d2.len() + 3);
        assert(d1.len() == d2.len());
        assert forall|i: int| 0 <= i < d1.len() implies d1[i] == d2[i] by {
            assert(spec_store_path(dir, c1)[dir.len() + 1 + i] == d1[i]);
            assert(spec_store_path(dir, c2)[dir.len() + 1 + i] == d2[i]);
        }
        assert(d1 =~= d2);
        assert(dec_value(d1) == dec_value(d2));
        assert(false);
    }
}

/// Entries the cache may hold before older ones are dropped.
pub const TX_CACHE_CAP: usize = 4096;

/// The per-client history store.
pub struct TxHistory {
    client_id: u16,
    db: sled::Db,
    cache: HashMapWithView<u32, TxRec>,
}

impl TxHistory {
    /// The records the durable layer holds.
    pub closed spec fn contents(&self) -> Map<u32, TxRec> {
        store_view(self.db)
    }

    pub closed spec fn client(&self) -> u16 {
        self.client_id
    }

    /// The durable root this store lives at.
    pub closed spec fn store_path(&self) -> Seq<u8> {
        db_path(self.db)
    }

    /// The cache is write-through: it never disagrees with the durable
    /// layer.
    pub closed spec fn inv(&self) -> bool {
        forall|t: u32|
            #[trigger] self.cache@.contains_key(t) ==> self.contents().contains_key(t)
                && self.cache@[t] == self.contents()[t]
    }

    /// The durable layer only ever holds storable records.
    pub proof fn lemma_contents_wf(&self)
        ensures
            hist_wf(self.contents()),
    {
        assert forall|t: u32| self.contents().contains_key(t) implies rec_wf(
            #[trigger] self.contents()[t],
        ) by {
            lemma_parse_rec_wf(db_contents(self.db)[spec_tx_key(t)]);
        }
    }

    /// Opens the durable store for one client under `dir`, rooted at
    /// `<dir>/<client>_db`. The records found there are whatever the
    /// disk holds.
    pub fn new(client_id: u16, dir: &Vec<u8>) -> (r: Result<TxHistory, AppError>)
        ensures
            r is Ok ==> r.unwrap().client() == client_id && r.unwrap().inv() && r.unwrap().store_path()
                == spec_store_path(dir@, client_id),
    {
        let mut path: Vec<u8> = Vec::new();
        let mut i: usize = 0;
        while i < dir.len()
            invariant
                0 <= i <= dir@.len(),
                path@ == dir@.subrange(0, i as int),
            decreases dir@.len() - i,
        {
            path.push(dir[i]);
            proof {
                assert(path@ =~= dir@.subrange(0, i as int + 1));
            }
            i = i + 1;
        }
        path.push(47);  // /
        let mut part = u128_to_dec(client_id as u128);
        path.append(&mut part);
        path.push(95);  // _
        path.push(100);  // d
        path.push(98);  // b
        proof {
            assert(path@ =~= spec_store_path(dir@, client_id));
        }
        match db_open(&path) {
            Ok(db) => Ok(TxHistory { client_id, db, cache: HashMapWithView::new() }),
            Err(e) => Err(AppError::new("model/tx_history", "new", "00", e.as_str())),
        }
    }

    /// Looks a transaction up, serving from the cache first. An error is
    /// a durable-layer failure; the store itself is unchanged by it.
    pub fn get_tx(&mut self, tx_id: &u32) -> (r: Result<Option<TxRec>, AppError>)
        requires
            old(self).inv(),
        ensures
            final(self).inv(),
            final(self).client() == old(self).client(),
            final(self).store_path() == old(self).store_path(),
            final(self).contents() == old(self).contents(),
            r matches Ok(o) ==> o == (if old(self).contents().contains_key(*tx_id) {
                Some(old(self).contents()[*tx_id])
            } else {
                None
            }),
    {
        match self.cache.get(tx_id) {
            Some(rec) => Ok(Some(*rec)),
            None => {
                let key = tx_key(*tx_id);
                match db_get(&self.db, &key) {
                    Err(e) => Err(AppError::new("model/tx_history", "get_tx", "00", e.as_str())),
                    Ok(None) => {
                        proof {
                            assert(!db_contents(self.db).contains_key(spec_tx_key(*tx_id)));
                            assert(!store_view(self.db).contains_key(*tx_id));
                        }
                        Ok(None)
                    },
                    Ok(Some(bytes)) => {
                        match parse_rec(&bytes) {
                            None => {
                                proof {
                                    assert(spec_parse_rec(
                                        db_contents(self.db)[spec_tx_key(*tx_id)],
                                    ) is None);
                                    assert(!store_view(self.db).contains_key(*tx_id));
                                }
                                Ok(None)
                            },
                            Some(rec) => {
                                proof {
                                    assert(store_view(self.db).contains_key(*tx_id));
                                    assert(store_view(self.db)[*tx_id] == rec);
                                }
                                if self.cache.len() >= TX_CACHE_CAP {
                                    // coarse recency replacement: drop the
                                    // old working set, keep what is hot now
                                    self.cache.clear();
                                }
                                self.cache.insert(*tx_id, rec);
                                Ok(Some(rec))
                            },
                        }
                    },
                }
            },
        }
    }

    /// Records a deposit or withdrawal, as `spec_put` says. An error is
    /// a durable-layer failure and is fatal to this store's run.
    pub fn set_tx(
        &mut self,
        tx_type: &TxRowType,
        client_id: &u16,
        tx_id: &u32,
        amount: &i128,
    ) -> (r: Result<bool, AppError>)
        requires
            old(self).inv(),
        ensures
            final(self).inv(),
            final(self).client() == old(self).client(),
            final(self).store_path() == old(self).store_path(),
            r matches Ok(ok) ==> (ok, final(self).contents()) == spec_put(
                old(self).client(),
                old(self).contents(),
                *tx_type,
                *client_id,
                *tx_id,
                *amount,
            ),
            !(*tx_type == TxRowType::DEPOSIT || *tx_type == TxRowType::WITHDRAW) ==> r is Ok,
            !(0 < *amount <= BAL_LIMIT as i128) ==> r is Ok,
            *client_id != old(self).client() ==> r is Ok,
    {
        let is_kind = match *tx_type {
            TxRowType::DEPOSIT => true,
            TxRowType::WITHDRAW => true,
            _ => false,
        };
        if !is_kind {
            return Ok(false);
        }
        if !(0 < *amount && *amount <= BAL_LIMIT as i128) {
            return Ok(false);
        }
        if *client_id != self.client_id {
            return Ok(false);
        }
        match self.get_tx(tx_id) {
            Err(e) => Err(e),
            Ok(Some(rec)) => {
                if rec.type_id == *tx_type && rec.client_id == *client_id && rec.amount
                    == *amount {
                    Ok(true)
                } else {
                    Ok(false)
                }
            },
            Ok(None) => {
                let rec = TxRec {
                    type_id: *tx_type,
                    client_id: *client_id,
                    amount: *amount,
                    state_id: TxRowType::NONE,
                };
                let bytes = ser_rec(&rec);
                let key = tx_key(*tx_id);
                let ghost db_old = self.db;
                match db_insert(&mut self.db, &key, &bytes) {
                    Ok(()) => {
                        proof {
                            lemma_store_view_insert(db_old, self.db, *tx_id, rec);
                        }
                        if self.cache.len() >= TX_CACHE_CAP {
                            self.cache.clear();
                        }
                        self.cache.insert(*tx_id, rec);
                        Ok(true)
                    },
                    Err(e) => {
                        // the write may or may not have landed; drop the
                        // cache so it cannot disagree with the disk
                        self.cache.clear();
                        Err(AppError::new("model/tx_history", "set_tx", "00", e.as_str()))
                    },
                }
            },
        }
    }

    /// Moves a recorded transaction's dispute state along a legal
    /// transition, as `spec_set_state` says.
    pub fn set_dispute_state(&mut self, tx_id: &u32, to: TxRowType) -> (r: Result<bool, AppError>)
        requires
            old(self).inv(),
        ensures
            final(self).inv(),
            final(self).client() == old(self).client(),
            final(self).store_path() == old(self).store_path(),
            r matches Ok(ok) ==> (ok, final(self).contents()) == spec_set_state(
                old(self).contents(),
                *tx_id,
                to,
            ),
    {
        match self.get_tx(tx_id) {
            Err(e) => Err(e),
            Ok(None) => Ok(false),
            Ok(Some(rec)) => {
                let legal = match (rec.state_id, to) {
                    (TxRowType::NONE, TxRowType::DISPUTE) => true,
                    (TxRowType::DISPUTE, TxRowType::RESOLVE) => true,
                    (TxRowType::DISPUTE, TxRowType::CHARGEBACK) => true,
                    _ => false,
                };
                if !legal {
                    return Ok(false);
                }
                let rec2 = TxRec { state_id: to, ..rec };
                proof {
                    self.lemma_contents_wf();
                }
                let bytes = ser_rec(&rec2);
                let key = tx_key(*tx_id);
                let ghost db_old = self.db;
                match db_insert(&mut self.db, &key, &bytes) {
                    Ok(()) => {
                        proof {
                            lemma_store_view_insert(db_old, self.db, *tx_id, rec2);
                        }
                        if self.cache.len() >= TX_CACHE_CAP {
                            self.cache.clear();
                        }
                        self.cache.insert(*tx_id, rec2);
                        Ok(true)
                    },
                    Err(e) => {
                        self.cache.clear();
                        Err(
                            AppError::new(
                                "model/tx_history",
                                "set_dispute_state",
                                "00",
                                e.as_str(),
                            ),
                        )
                    },
                }
            },
        }
    }

    /// Empties the store, durable layer and cache both.
    pub fn clear(&mut self) -> (r: Result<(), AppError>)
        ensures
            final(self).inv(),
            final(self).client() == old(self).client(),
            final(self).store_path() == old(self).store_path(),
            r is Ok ==> forall|t: u32| !final(self).contents().contains_key(t),
    {
        let ghost db_old = self.db;
        let out = match db_clear(&mut self.db) {
            Ok(()) => Ok(()),
            Err(e) => Err(AppError::new("model/tx_history", "clear", "00", e.as_str())),
        };
        self.cache.clear();
        out
    }

    /// Forces pending writes to disk; the records do not change.
    pub fn flush(&mut self) -> (r: Result<(), AppError>)
        requires
            old(self).inv(),
        ensures
            final(self).inv(),
            final(self).client() == old(self).client(),
            final(self).store_path() == old(self).store_path(),
            final(self).contents() == old(self).contents(),
    {
        let r = db_flush(&mut self.db);
        proof {
            assert(store_view(self.db) =~= store_view(old(self).db));
        }
        match r {
            Ok(()) => Ok(()),
            Err(e) => Err(AppError::new("model/tx_history", "flush", "00", e.as_str())),
        }
    }
}

/// Reads a stored record, exactly as `spec_parse_rec`.
fn parse_rec(v: &Vec<u8>) -> (r: Option<TxRec>)
    ensures
        r == spec_parse_rec(v@),
{
    let fields = split_fields(v.as_slice());
    let ghost fv = fields_view(fields@);
    proof {
        assert(forall|i: int| 0 <= i < fields@.len() ==> fv[i] == fields@[i]@);
    }
    if fields.len() != 4 {
        return None;
    }
    if !(fields[0].len() == 1 && (fields[0][0] == 100 || fields[0][0] == 119)) {
        return None;
    }
    let client: u16 = match parse_dec(fields[1].as_slice(), 65535) {
        Some(w) => w as u16,
        None => {
            return None;
        },
    };
    let amount: i128 = match parse_dec(fields[2].as_slice(), BAL_LIMIT) {
        Some(w) => {
            if w == 0 {
                return None;
            }
            w as i128
        },
        None => {
            return None;
        },
    };
    if !(fields[3].len() == 1) {
        return None;
    }
    let st = fields[3][0];
    let state_id = if st == 110 {
        TxRowType::NONE
    } else if st == 100 {
        TxRowType::DISPUTE
    } else if st == 114 {
        TxRowType::RESOLVE
    } else if st == 99 {
        TxRowType::CHARGEBACK
    } else {
        return None;
    };
    let type_id = if fields[0][0] == 100 {
        TxRowType::DEPOSIT
    } else {
        TxRowType::WITHDRAW
    };
    Some(TxRec { type_id, client_id: client, amount, state_id })
}

} // verus!
