//! Typed ledger rows. A row names an event kind, a client, a transaction
//! id, and (for deposits and withdrawals) an amount in ten-thousandth
//! units. Kind recognition from raw column bytes is specified exactly,
//! lower-cased and space-stripped as the inputs require.
use vstd::prelude::*;

verus! {

/// Column positions of the input record layout.
pub const TYPE_POS: usize = 0;

pub const CLIENT_POS: usize = 1;

pub const TX_POS: usize = 2;

pub const AMOUNT_POS: usize = 3;

/// Widest and narrowest well-formed row.
pub const MAX_CSV_ROW_LEN: usize = 4;

pub const MIN_CSV_ROW_LEN: usize = 3;

#[derive(Clone, Copy, Debug, PartialEq, Eq, Structural)]
pub enum TxRowType {
    DEPOSIT,
    WITHDRAW,
    DISPUTE,
    RESOLVE,
    CHARGEBACK,
    NONE,
}

/// Canonical keyword of each kind; the empty sequence for `NONE`.
pub open spec fn kind_bytes(k: TxRowType) -> Seq<u8> {
    match k {
        TxRowType::DEPOSIT => seq![100u8, 101, 112, 111, 115, 105, 116],  // deposit
        TxRowType::WITHDRAW => seq![119u8, 105, 116, 104, 100, 114, 97, 119],  // withdraw
        TxRowType::DISPUTE => seq![100u8, 105, 115, 112, 117, 116, 101],  // dispute
        TxRowType::RESOLVE => seq![114u8, 101, 115, 111, 108, 118, 101],  // resolve
        TxRowType::CHARGEBACK => seq![99u8, 104, 97, 114, 103, 101, 98, 97, 99, 107],  // chargeback
        TxRowType::NONE => Seq::empty(),
    }
}

/// The long spelling of a withdrawal, accepted alongside the short one.
pub open spec fn withdrawal_bytes() -> Seq<u8> {
    seq![119u8, 105, 116, 104, 100, 114, 97, 119, 97, 108]  // withdrawal
}

/// An upper-case ASCII letter folded to lower case; all else unchanged.
pub open spec fn norm_byte(b: u8) -> u8 {
    if 65 <= b <= 90 {
        (b + 32) as u8
    } else {
        b
    }
}

/// Lower-cases letters and strips every space.
pub open spec fn normalize(s: Seq<u8>) -> Seq<u8>
    decreases s.len(),
{
    if s.len() == 0 {
        Seq::empty()
    } else {
        let rest = normalize(s.drop_last());
        if s.last() == 32 {
            rest
        } else {
            rest.push(norm_byte(s.last()))
        }
    }
}

/// The kind named by a raw type column, after normalization.
pub open spec fn spec_kind_of(s: Seq<u8>) -> TxRowType {
    let n = normalize(s);
    if n == kind_bytes(TxRowType::DEPOSIT) {
        TxRowType::DEPOSIT
    } else if n == kind_bytes(TxRowType::WITHDRAW) || n == withdrawal_bytes() {
        TxRowType::WITHDRAW
    } else if n == kind_bytes(TxRowType::DISPUTE) {
        TxRowType::DISPUTE
    } else if n == kind_bytes(TxRowType::RESOLVE) {
        TxRowType::RESOLVE
    } else if n == kind_bytes(TxRowType::CHARGEBACK) {
        TxRowType::CHARGEBACK
    } else {
        TxRowType::NONE
    }
}

/// The dispute family: events that refer to an earlier transaction.
pub open spec fn spec_conflict_type(k: TxRowType) -> bool {
    k == TxRowType::DISPUTE || k == TxRowType::RESOLVE || k == TxRowType::CHARGEBACK
}

impl TxRowType {
    /// Column that carries the type keyword.
    pub fn pos() -> (r: usize)
        ensures
            r == TYPE_POS,
    {
        TYPE_POS
    }

    /// Recognizes a kind in a raw type column.
    pub fn from_binary(binary: &[u8]) -> (r: Self)
        ensures
            r == spec_kind_of(binary@),
    {
        let n = normalize_bytes(binary);
        if vec_bytes_eq(&n, &keyword_vec(TxRowType::DEPOSIT)) {
            TxRowType::DEPOSIT
        } else if vec_bytes_eq(&n, &keyword_vec(TxRowType::WITHDRAW)) || vec_bytes_eq(
            &n,
            &withdrawal_vec(),
        ) {
            TxRowType::WITHDRAW
        } else if vec_bytes_eq(&n, &keyword_vec(TxRowType::DISPUTE)) {
            TxRowType::DISPUTE
        } else if vec_bytes_eq(&n, &keyword_vec(TxRowType::RESOLVE)) {
            TxRowType::RESOLVE
        } else if vec_bytes_eq(&n, &keyword_vec(TxRowType::CHARGEBACK)) {
            TxRowType::CHARGEBACK
        } else {
            TxRowType::NONE
        }
    }

    /// The canonical keyword bytes; empty for `NONE`.
    pub fn as_binary(&self) -> (r: Vec<u8>)
        ensures
            r@ == kind_bytes(*self),
    {
        keyword_vec(*self)
    }

    /// Whether this kind disputes, resolves or charges back an earlier
    /// transaction.
    pub fn conflict_type(&self) -> (r: bool)
        ensures
            r == spec_conflict_type(*self),
    {
        *self == TxRowType::DISPUTE || *self == TxRowType::RESOLVE || *self
            == TxRowType::CHARGEBACK
    }
}

/// Builds the canonical keyword of a kind.
fn keyword_vec(k: TxRowType) -> (r: Vec<u8>)
    ensures
        r@ == kind_bytes(k),
{
    let mut v: Vec<u8> = Vec::new();
    match k {
        TxRowType::DEPOSIT => {
            v.push(100);
            v.push(101);
            v.push(112);
            v.push(111);
            v.push(115);
            v.push(105);
            v.push(116);
        },
        TxRowType::WITHDRAW => {
            v.push(119);
            v.push(105);
            v.push(116);
            v.push(104);
            v.push(100);
            v.push(114);
            v.push(97);
            v.push(119);
        },
        TxRowType::DISPUTE => {
            v.push(100);
            v.push(105);
            v.push(115);
            v.push(112);
            v.push(117);
            v.push(116);
            v.push(101);
        },
        TxRowType::RESOLVE => {
            v.push(114);
            v.push(101);
            v.push(115);
            v.push(111);
            v.push(108);
            v.push(118);
            v.push(101);
        },
        TxRowType::CHARGEBACK => {
            v.push(99);
            v.push(104);
            v.push(97);
            v.push(114);
            v.push(103);
            v.push(101);
            v.push(98);
            v.push(97);
            v.push(99);
            v.push(107);
        },
        TxRowType::NONE => {},
    }
    proof {
        assert(v@ =~= kind_bytes(k));
    }
    v
}

/// Builds the long withdrawal spelling.
fn withdrawal_vec() -> (r: Vec<u8>)
    ensures
        r@ == withdrawal_bytes(),
{
    let mut v: Vec<u8> = Vec::new();
    v.push(119);
    v.push(105);
    v.push(116);
    v.push(104);
    v.push(100);
    v.push(114);
    v.push(97);
    v.push(119);
    v.push(97);
    v.push(108);
    proof {
        assert(v@ =~= withdrawal_bytes());
    }
    v
}

/// Byte-wise equality of two vectors.
pub fn vec_bytes_eq(a: &Vec<u8>, b: &Vec<u8>) -> (r: bool)
    ensures
        r == (a@ == b@),
{
    if a.len() != b.len() {
        proof {
            assert(a@.len() != b@.len());
        }
        return false;
    }
    let mut i: usize = 0;
    while i < a.len()
        invariant
            0 <= i <= a@.len(),
            a@.len() == b@.len(),
            forall|j: int| 0 <= j < i ==> a@[j] == b@[j],
        decreases a@.len() - i,
    {
        if a[i] != b[i] {
            return false;
        }
        i = i + 1;
    }
    proof {
        assert(a@ =~= b@);
    }
    true
}

/// Lower-cases letters and strips spaces, exactly as `normalize`.
pub fn normalize_bytes(s: &[u8]) -> (r: Vec<u8>)
    ensures
        r@ == normalize(s@),
{
    let mut v: Vec<u8> = Vec::new();
    let mut i: usize = 0;
    while i < s.len()
        invariant
            0 <= i <= s@.len(),
            v@ == normalize(s@.subrange(0, i as int)),
        decreases s@.len() - i,
    {
        let b = s[i];
        proof {
            assert(s@.subrange(0, i as int + 1).drop_last() =~= s@.subrange(0, i as int));
            assert(s@.subrange(0, i as int + 1).last() == s@[i as int]);
        }
        if b != 32 {
            if 65 <= b && b <= 90 {
                v.push(b + 32);
            } else {
                v.push(b);
            }
        }
        i = i + 1;
    }
    proof {
        assert(s@.subrange(0, i as int) =~= s@);
    }
    v
}

/// One typed ledger row.
#[derive(Clone, Copy, Debug, PartialEq, Eq, Structural)]
pub struct TxRow {
    pub type_id: TxRowType,
    pub client_id: u16,
    pub tx_id: u32,
    pub amount: i128,
}

impl TxRow {
    pub fn new(type_id: TxRowType, client_id: u16, tx_id: u32, amount: i128) -> (r: Self)
        ensures
            r == (TxRow { type_id, client_id, tx_id, amount }),
    {
        Self { type_id, client_id, tx_id, amount }
    }
}

/// A value that carries a row kind and can tell a recognized row from an
/// unrecognized one.
pub trait Record: Sized {
    spec fn spec_record_type(&self) -> TxRowType;

    fn record_type(&self) -> (r: TxRowType)
        ensures
            r == self.spec_record_type(),
    ;

    fn valid_record(&self) -> (r: bool)
        ensures
            r == (self.spec_record_type() != TxRowType::NONE),
    {
        self.record_type() != TxRowType::NONE
    }
}

impl Record for TxRow {
    open spec fn spec_record_type(&self) -> TxRowType {
        self.type_id
    }

    fn record_type(&self) -> (r: TxRowType)
        ensures
            r == self.spec_record_type(),
    {
        self.type_id
    }
}

} // verus!
