//! The record codec: splits a raw input line into columns, trims them,
//! recognizes header rows, and decodes typed ledger rows. Every accepted
//! and every rejected shape is pinned down by a spec function.
use vstd::prelude::*;

use crate::amount::lemma_format_parse_roundtrip;
use crate::amount::lemma_format_units_shape;
use crate::amount::parse_amount;
use crate::amount::spec_format_units;
use crate::amount::spec_parse_amount;
use crate::amount::format_units;
use crate::amount::unit_range;
use crate::digits::all_dec_digits;
use crate::digits::dec_value;
use crate::digits::dec_digits;
use crate::digits::lemma_dec_digits_roundtrip;
use crate::digits::parse_dec;
use crate::digits::u128_to_dec;
use crate::tx_row::normalize;
use crate::tx_row::normalize_bytes;
use crate::tx_row::spec_conflict_type;
use crate::tx_row::spec_kind_of;
use crate::tx_row::vec_bytes_eq;
use crate::tx_row::TxRow;
use crate::tx_row::TxRowType;
use crate::tx_row::MAX_CSV_ROW_LEN;
use crate::tx_row::MIN_CSV_ROW_LEN;

verus! {

/// The column separator.
pub const COMMA: u8 = 44;

pub open spec fn is_ws(b: u8) -> bool {
    b == 32 || b == 9 || b == 13 || b == 10
}

/// A field with surrounding whitespace removed.
pub open spec fn trim_spec(s: Seq<u8>) -> Seq<u8>
    decreases s.len(),
{
    if s.len() == 0 {
        s
    } else if is_ws(s[0]) {
        trim_spec(s.drop_first())
    } else if is_ws(s.last()) {
        trim_spec(s.drop_last())
    } else {
        s
    }
}

/// Exact whitespace trim of a byte field.
pub fn trim(s: &[u8]) -> (r: Vec<u8>)
    ensures
        r@ == trim_spec(s@),
{
    let mut a: usize = 0;
    let mut b: usize = s.len();
    proof {
        assert(s@.subrange(0, s@.len() as int) =~= s@);
    }
    while a < b && (s[a] == 32 || s[a] == 9 || s[a] == 13 || s[a] == 10)
        invariant
            0 <= a <= b <= s@.len(),
            trim_spec(s@) == trim_spec(s@.subrange(a as int, b as int)),
        decreases b - a,
    {
        proof {
            assert(s@.subrange(a as int, b as int).drop_first() =~= s@.subrange(
                a as int + 1,
                b as int,
            ));
        }
        a = a + 1;
    }
    while a < b && (s[b - 1] == 32 || s[b - 1] == 9 || s[b - 1] == 13 || s[b - 1] == 10)
        invariant
            0 <= a <= b <= s@.len(),
            trim_spec(s@) == trim_spec(s@.subrange(a as int, b as int)),
            a < b ==> !is_ws(s@[a as int]),
        decreases b - a,
    {
        proof {
            assert(s@.subrange(a as int, b as int).drop_last() =~= s@.subrange(
                a as int,
                b as int - 1,
            ));
        }
        b = b - 1;
    }
    let sl = vstd::slice::slice_subrange(s, a, b);
    let r = vstd::slice::slice_to_vec(sl);
    proof {
        let t = s@.subrange(a as int, b as int);
        if t.len() > 0 {
            assert(!is_ws(t[0]) && !is_ws(t.last()));
        }
        assert(r@ =~= trim_spec(s@));
    }
    r
}

/// The view of a vector of byte fields.
pub open spec fn fields_view(f: Seq<Vec<u8>>) -> Seq<Seq<u8>> {
    f.map_values(|v: Vec<u8>| v@)
}

/// Comma-splitting, one byte at a time from the left: a comma opens a new
/// empty field, any other byte extends the last one.
pub open spec fn spec_split(s: Seq<u8>) -> Seq<Seq<u8>>
    decreases s.len(),
{
    if s.len() == 0 {
        seq![Seq::<u8>::empty()]
    } else {
        let prev = spec_split(s.drop_last());
        if s.last() == COMMA {
            prev.push(Seq::empty())
        } else {
            prev.update(prev.len() - 1, prev.last().push(s.last()))
        }
    }
}

pub proof fn lemma_spec_split_len(s: Seq<u8>)
    ensures
        spec_split(s).len() >= 1,
    decreases s.len(),
{
    if s.len() > 0 {
        lemma_spec_split_len(s.drop_last());
    }
}

/// Splits a line at commas; empty fields are kept.
pub fn split_fields(line: &[u8]) -> (r: Vec<Vec<u8>>)
    ensures
        fields_view(r@) == spec_split(line@),
{
    let mut fields: Vec<Vec<u8>> = Vec::new();
    let mut cur: Vec<u8> = Vec::new();
    let mut i: usize = 0;
    while i < line.len()
        invariant
            0 <= i <= line@.len(),
            fields_view(fields@).push(cur@) == spec_split(line@.subrange(0, i as int)),
        decreases line@.len() - i,
    {
        let b = line[i];
        proof {
            assert(line@.subrange(0, i as int + 1).drop_last() =~= line@.subrange(0, i as int));
            assert(line@.subrange(0, i as int + 1).last() == line@[i as int]);
            lemma_spec_split_len(line@.subrange(0, i as int));
        }
        if b == COMMA {
            fields.push(cur);
            cur = Vec::new();
            proof {
                assert(fields_view(fields@).push(cur@) =~= spec_split(
                    line@.subrange(0, i as int),
                ).push(Seq::<u8>::empty()));
            }
        } else {
            cur.push(b);
            proof {
                let prev = spec_split(line@.subrange(0, i as int));
                assert(prev.last() == cur@.drop_last());
                assert(fields_view(fields@).push(cur@) =~= prev.update(
                    prev.len() - 1,
                    prev.last().push(b),
                ));
            }
        }
        i = i + 1;
    }
    fields.push(cur);
    proof {
        assert(line@.subrange(0, i as int) =~= line@);
    }
    fields
}

/// Extending a line with a comma-free field extends its last column.
pub proof fn lemma_split_append_field(s: Seq<u8>, f: Seq<u8>)
    requires
        forall|i: int| 0 <= i < f.len() ==> f[i] != COMMA,
    ensures
        spec_split(s + f) == spec_split(s).update(
            spec_split(s).len() - 1,
            spec_split(s).last() + f,
        ),
    decreases f.len(),
{
    lemma_spec_split_len(s);
    if f.len() == 0 {
        assert(s + f =~= s);
        assert(spec_split(s).last() + f =~= spec_split(s).last());
        assert(spec_split(s).update(spec_split(s).len() - 1, spec_split(s).last()) =~= spec_split(
            s,
        ));
    } else {
        lemma_split_append_field(s, f.drop_last());
        assert((s + f).drop_last() =~= s + f.drop_last());
        assert((s + f).last() == f.last());
        let p = spec_split(s + f.drop_last());
        assert(spec_split(s + f) == p.update(p.len() - 1, p.last().push(f.last())));
        assert(p.last() == spec_split(s).last() + f.drop_last());
        assert((spec_split(s).last() + f.drop_last()).push(f.last()) =~= spec_split(s).last() + f);
        assert(spec_split(s + f) =~= spec_split(s).update(
            spec_split(s).len() - 1,
            spec_split(s).last() + f,
        ));
    }
}

/// Extending a line with a comma opens a new empty column.
pub proof fn lemma_split_append_comma(s: Seq<u8>)
    ensures
        spec_split(s + seq![COMMA]) == spec_split(s).push(Seq::<u8>::empty()),
{
    assert((s + seq![COMMA]).drop_last() =~= s);
    assert((s + seq![COMMA]).last() == COMMA);
}

/// Why a row was rejected.
#[derive(Clone, Copy, Debug, PartialEq, Eq, Structural)]
pub enum DecodeError {
    BadColumnCount,
    UnknownType,
    BadClient,
    BadTx,
    BadAmount,
}

/// The decoding contract: which rows become events, which fail, and why.
/// Dispute-family rows carry no amount; their fourth column, if present,
/// is ignored. Deposits and withdrawals need all four columns.
pub open spec fn spec_decode(f: Seq<Seq<u8>>) -> Result<TxRow, DecodeError> {
    if f.len() < MIN_CSV_ROW_LEN || f.len() > MAX_CSV_ROW_LEN {
        Err(DecodeError::BadColumnCount)
    } else {
        let k = spec_kind_of(trim_spec(f[0]));
        if k == TxRowType::NONE {
            Err(DecodeError::UnknownType)
        } else {
            let ct = trim_spec(f[1]);
            if !(ct.len() >= 1 && all_dec_digits(ct) && dec_value(ct) <= u16::MAX) {
                Err(DecodeError::BadClient)
            } else {
                let tt = trim_spec(f[2]);
                if !(tt.len() >= 1 && all_dec_digits(tt) && dec_value(tt) <= u32::MAX) {
                    Err(DecodeError::BadTx)
                } else if spec_conflict_type(k) {
                    Ok(
                        TxRow {
                            type_id: k,
                            client_id: dec_value(ct) as u16,
                            tx_id: dec_value(tt) as u32,
                            amount: 0,
                        },
                    )
                } else if f.len() != MAX_CSV_ROW_LEN {
                    Err(DecodeError::BadColumnCount)
                } else {
                    match spec_parse_amount(trim_spec(f[3])) {
                        Some(v) => Ok(
                            TxRow {
                                type_id: k,
                                client_id: dec_value(ct) as u16,
                                tx_id: dec_value(tt) as u32,
                                amount: v as i128,
                            },
                        ),
                        None => Err(DecodeError::BadAmount),
                    }
                }
            }
        }
    }
}

/// Decodes trimmed columns into a typed row, exactly as `spec_decode`.
pub fn decode_fields(fields: &Vec<Vec<u8>>) -> (r: Result<TxRow, DecodeError>)
    ensures
        r == spec_decode(fields_view(fields@)),
{
    let ghost fv = fields_view(fields@);
    proof {
        assert(forall|i: int| 0 <= i < fields@.len() ==> fv[i] == fields@[i]@);
    }
    if fields.len() < MIN_CSV_ROW_LEN || fields.len() > MAX_CSV_ROW_LEN {
        return Err(DecodeError::BadColumnCount);
    }
    let tf = trim(fields[0].as_slice());
    let k = TxRowType::from_binary(tf.as_slice());
    if k == TxRowType::NONE {
        return Err(DecodeError::UnknownType);
    }
    let cf = trim(fields[1].as_slice());
    let client: u16 = match parse_dec(cf.as_slice(), 65535) {
        Some(v) => v as u16,
        None => {
            return Err(DecodeError::BadClient);
        },
    };
    let xf = trim(fields[2].as_slice());
    let tx: u32 = match parse_dec(xf.as_slice(), 4294967295) {
        Some(v) => v as u32,
        None => {
            return Err(DecodeError::BadTx);
        },
    };
    if k.conflict_type() {
        return Ok(TxRow { type_id: k, client_id: client, tx_id: tx, amount: 0 });
    }
    if fields.len() != MAX_CSV_ROW_LEN {
        return Err(DecodeError::BadColumnCount);
    }
    let af = trim(fields[3].as_slice());
    match parse_amount(af.as_slice()) {
        Some(v) => Ok(TxRow { type_id: k, client_id: client, tx_id: tx, amount: v }),
        None => Err(DecodeError::BadAmount),
    }
}

/// The four header words.
pub open spec fn is_header_word(s: Seq<u8>) -> bool {
    s == seq![116u8, 121, 112, 101]  // type
     || s == seq![99u8, 108, 105, 101, 110, 116]  // client
     || s == seq![116u8, 120]  // tx
     || s == seq![97u8, 109, 111, 117, 110, 116]  // amount
}

/// A header row names a header word in one of its first four columns.
pub open spec fn spec_header_row(f: Seq<Seq<u8>>) -> bool {
    exists|i: int| 0 <= i < f.len() && i < 4 && is_header_word(normalize(#[trigger] f[i]))
}

/// Whether one normalized column is a header word.
fn is_header_field(s: &[u8]) -> (r: bool)
    ensures
        r == is_header_word(normalize(s@)),
{
    let n = normalize_bytes(s);
    let mut w: Vec<u8> = Vec::new();
    w.push(116);
    w.push(121);
    w.push(112);
    w.push(101);
    proof {
        assert(w@ =~= seq![116u8, 121, 112, 101]);
    }
    if vec_bytes_eq(&n, &w) {
        return true;
    }
    let mut w: Vec<u8> = Vec::new();
    w.push(99);
    w.push(108);
    w.push(105);
    w.push(101);
    w.push(110);
    w.push(116);
    proof {
        assert(w@ =~= seq![99u8, 108, 105, 101, 110, 116]);
    }
    if vec_bytes_eq(&n, &w) {
        return true;
    }
    let mut w: Vec<u8> = Vec::new();
    w.push(116);
    w.push(120);
    proof {
        assert(w@ =~= seq![116u8, 120]);
    }
    if vec_bytes_eq(&n, &w) {
        return true;
    }
    let mut w: Vec<u8> = Vec::new();
    w.push(97);
    w.push(109);
    w.push(111);
    w.push(117);
    w.push(110);
    w.push(116);
    proof {
        assert(w@ =~= seq![97u8, 109, 111, 117, 110, 116]);
    }
    vec_bytes_eq(&n, &w)
}

/// Recognizes a header row, exactly as `spec_header_row`.
pub fn header_row(fields: &Vec<Vec<u8>>) -> (r: bool)
    ensures
        r == spec_header_row(fields_view(fields@)),
{
    let ghost fv = fields_view(fields@);
    proof {
        assert(forall|i: int| 0 <= i < fields@.len() ==> fv[i] == fields@[i]@);
    }
    let mut i: usize = 0;
    while i < fields.len() && i < 4
        invariant
            0 <= i <= fields@.len(),
            i <= 4,
            fv == fields_view(fields@),
            forall|j: int| 0 <= j < fields@.len() ==> fv[j] == fields@[j]@,
            forall|j: int| 0 <= j < i ==> !is_header_word(normalize(#[trigger] fv[j])),
        decreases fields@.len() - i,
    {
        if is_header_field(fields[i].as_slice()) {
            proof {
                assert(is_header_word(normalize(fv[i as int])));
            }
            return true;
        }
        i = i + 1;
    }
    false
}

/// `true` and `false`, as the snapshot column spells them.
pub open spec fn bool_bytes(b: bool) -> Seq<u8> {
    if b {
        seq![116u8, 114, 117, 101]  // true
    } else {
        seq![102u8, 97, 108, 115, 101]  // false
    }
}

/// Builds the spelled-out boolean.
pub fn bool_vec(b: bool) -> (r: Vec<u8>)
    ensures
        r@ == bool_bytes(b),
{
    let mut v: Vec<u8> = Vec::new();
    if b {
        v.push(116);
        v.push(114);
        v.push(117);
        v.push(101);
    } else {
        v.push(102);
        v.push(97);
        v.push(108);
        v.push(115);
        v.push(101);
    }
    proof {
        assert(v@ =~= bool_bytes(b));
    }
    v
}

/// One snapshot row: `client,available,held,total,locked`, amounts with
/// exactly four fractional digits.
pub open spec fn spec_snapshot_row(client: u16, av: int, hd: int, tt: int, locked: bool) -> Seq<
    u8,
> {
    dec_digits(client as nat) + seq![COMMA] + spec_format_units(av) + seq![COMMA]
        + spec_format_units(hd) + seq![COMMA] + spec_format_units(tt) + seq![COMMA] + bool_bytes(
        locked,
    )
}

/// Serializes one snapshot row exactly.
pub fn snapshot_row(client: u16, av: i128, hd: i128, tt: i128, locked: bool) -> (r: Vec<u8>)
    requires
        unit_range(av as int),
        unit_range(hd as int),
        unit_range(tt as int),
    ensures
        r@ == spec_snapshot_row(client, av as int, hd as int, tt as int, locked),
{
    let mut out = u128_to_dec(client as u128);
    out.push(COMMA);
    let mut part = format_units(av);
    out.append(&mut part);
    out.push(COMMA);
    let mut part = format_units(hd);
    out.append(&mut part);
    out.push(COMMA);
    let mut part = format_units(tt);
    out.append(&mut part);
    out.push(COMMA);
    let mut part = bool_vec(locked);
    out.append(&mut part);
    proof {
        assert(out@ =~= spec_snapshot_row(client, av as int, hd as int, tt as int, locked));
    }
    out
}

/// The reading contract of a snapshot row already split into columns.
pub open spec fn spec_parse_snapshot(f: Seq<Seq<u8>>) -> Option<(u16, i128, i128, i128, bool)> {
    if f.len() != 5 {
        None
    } else {
        let ct = trim_spec(f[0]);
        if !(ct.len() >= 1 && all_dec_digits(ct) && dec_value(ct) <= u16::MAX) {
            None
        } else {
            match (spec_parse_amount(trim_spec(f[1])), spec_parse_amount(trim_spec(f[2])),
                spec_parse_amount(trim_spec(f[3]))) {
                (Some(a), Some(h), Some(t)) => {
                    let lf = trim_spec(f[4]);
                    if lf == bool_bytes(true) {
                        Some((dec_value(ct) as u16, a as i128, h as i128, t as i128, true))
                    } else if lf == bool_bytes(false) {
                        Some((dec_value(ct) as u16, a as i128, h as i128, t as i128, false))
                    } else {
                        None
                    }
                },
                _ => None,
            }
        }
    }
}

/// Reads a snapshot row back, exactly as `spec_parse_snapshot`.
pub fn parse_snapshot_fields(fields: &Vec<Vec<u8>>) -> (r: Option<(u16, i128, i128, i128, bool)>)
    ensures
        r == spec_parse_snapshot(fields_view(fields@)),
{
    let ghost fv = fields_view(fields@);
    proof {
        assert(forall|i: int| 0 <= i < fields@.len() ==> fv[i] == fields@[i]@);
    }
    if fields.len() != 5 {
        return None;
    }
    let cf = trim(fields[0].as_slice());
    let client: u16 = match parse_dec(cf.as_slice(), 65535) {
        Some(v) => v as u16,
        None => {
            return None;
        },
    };
    let av = match parse_amount(trim(fields[1].as_slice()).as_slice()) {
        Some(v) => v,
        None => {
            return None;
        },
    };
    let hd = match parse_amount(trim(fields[2].as_slice()).as_slice()) {
        Some(v) => v,
        None => {
            return None;
        },
    };
    let tt = match parse_amount(trim(fields[3].as_slice()).as_slice()) {
        Some(v) => v,
        None => {
            return None;
        },
    };
    let lf = trim(fields[4].as_slice());
    if vec_bytes_eq(&lf, &bool_vec(true)) {
        Some((client, av, hd, tt, true))
    } else if vec_bytes_eq(&lf, &bool_vec(false)) {
        Some((client, av, hd, tt, false))
    } else {
        None
    }
}

/// A nonempty field that neither starts nor ends in whitespace trims to
/// itself.
proof fn lemma_trim_id(s: Seq<u8>)
    requires
        s.len() >= 1,
        !is_ws(s[0]),
        !is_ws(s.last()),
    ensures
        trim_spec(s) == s,
{
}

/// A snapshot row splits back into its five columns and reads back as the
/// values it was written from.
#[verifier::rlimit(60)]
pub proof fn lemma_snapshot_roundtrip(client: u16, av: int, hd: int, tt: int, locked: bool)
    requires
        unit_range(av),
        unit_range(hd),
        unit_range(tt),
    ensures
        spec_split(spec_snapshot_row(client, av, hd, tt, locked)) == seq![
            dec_digits(client as nat),
            spec_format_units(av),
            spec_format_units(hd),
            spec_format_units(tt),
            bool_bytes(locked),
        ],
        spec_parse_snapshot(spec_split(spec_snapshot_row(client, av, hd, tt, locked))) == Some(
            (client, av as i128, hd as i128, tt as i128, locked),
        ),
{
    let a = dec_digits(client as nat);
    let b = spec_format_units(av);
    let c = spec_format_units(hd);
    let d = spec_format_units(tt);
    let e = bool_bytes(locked);
    lemma_dec_digits_roundtrip(client as nat);
    lemma_format_units_shape(av);
    lemma_format_units_shape(hd);
    lemma_format_units_shape(tt);
    assert(forall|i: int| 0 <= i < a.len() ==> #[trigger] a[i] != COMMA);
    assert(forall|i: int| 0 <= i < b.len() ==> #[trigger] b[i] != COMMA);
    assert(forall|i: int| 0 <= i < c.len() ==> #[trigger] c[i] != COMMA);
    assert(forall|i: int| 0 <= i < d.len() ==> #[trigger] d[i] != COMMA);
    assert(forall|i: int| 0 <= i < e.len() ==> #[trigger] e[i] != COMMA);
    let s1 = a;
    let s2 = s1 + seq![COMMA];
    let s3 = s2 + b;
    let s4 = s3 + seq![COMMA];
    let s5 = s4 + c;
    let s6 = s5 + seq![COMMA];
    let s7 = s6 + d;
    let s8 = s7 + seq![COMMA];
    let s9 = s8 + e;
    assert(s9 =~= spec_snapshot_row(client, av, hd, tt, locked));
    assert(Seq::<u8>::empty() + a =~= a);
    lemma_split_append_field(Seq::<u8>::empty(), a);
    assert(spec_split(s1) =~= seq![a]);
    lemma_split_append_comma(s1);
    assert(spec_split(s2) =~= seq![a, Seq::<u8>::empty()]);
    lemma_split_append_field(s2, b);
    assert(Seq::<u8>::empty() + b =~= b);
    assert(spec_split(s3) =~= seq![a, b]);
    lemma_split_append_comma(s3);
    lemma_split_append_field(s4, c);
    assert(Seq::<u8>::empty() + c =~= c);
    assert(spec_split(s5) =~= seq![a, b, c]);
    lemma_split_append_comma(s5);
    lemma_split_append_field(s6, d);
    assert(Seq::<u8>::empty() + d =~= d);
    assert(spec_split(s7) =~= seq![a, b, c, d]);
    lemma_split_append_comma(s7);
    lemma_split_append_field(s8, e);
    assert(Seq::<u8>::empty() + e =~= e);
    assert(spec_split(s9) =~= seq![a, b, c, d, e]);
    // each column reads back as what it was written from
    lemma_trim_id(a);
    lemma_trim_id(b);
    lemma_trim_id(c);
    lemma_trim_id(d);
    lemma_trim_id(e);
    lemma_format_parse_roundtrip(av);
    lemma_format_parse_roundtrip(hd);
    lemma_format_parse_roundtrip(tt);
    let f = seq![a, b, c, d, e];
    assert(trim_spec(f[0]) == a);
    assert(dec_value(a) == client);
    if locked {
        assert(trim_spec(f[4]) == bool_bytes(true));
    } else {
        assert(bool_bytes(false).len() != bool_bytes(true).len());
        assert(trim_spec(f[4]) == bool_bytes(false));
        assert(trim_spec(f[4]) != bool_bytes(true));
    }
}

} // verus!
