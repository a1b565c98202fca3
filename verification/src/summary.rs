//! Snapshot bookkeeping data: which snapshot file belongs to which
//! client, and whether a file is to replace the durable snapshot or
//! only to be shown. The directory walking that fills these lives
//! outside; the naming rule is verified here.
use vstd::prelude::*;

use crate::digits::all_dec_digits;
use crate::digits::dec_value;
use crate::digits::parse_dec;
use crate::processor::spec_last_pos;

verus! {

/// One snapshot file on its way through the writer.
pub trait SummaryPathData {
    fn update_file(&self) -> bool;

    fn file_path(&self) -> &Vec<u8>;

    fn file_name(&self) -> &Vec<u8>;
}

#[derive(Debug)]
pub struct SummaryPath {
    pub update_file: bool,
    pub file_path: Vec<u8>,
    pub file_name: Vec<u8>,
}

impl SummaryPath {
    /// An empty entry, marked for replacement.
    pub fn new() -> (r: SummaryPath)
        ensures
            r.update_file,
            r.file_path@.len() == 0,
            r.file_name@.len() == 0,
    {
        SummaryPath { update_file: true, file_path: Vec::new(), file_name: Vec::new() }
    }
}

impl SummaryPathData for SummaryPath {
    fn update_file(&self) -> (r: bool)
        ensures
            r == self.update_file,
    {
        self.update_file
    }

    fn file_path(&self) -> (r: &Vec<u8>)
        ensures
            r@ == self.file_path@,
    {
        &self.file_path
    }

    fn file_name(&self) -> (r: &Vec<u8>)
        ensures
            r@ == self.file_name@,
    {
        &self.file_name
    }
}

/// One client's history directory.
pub trait TxSummaryData {
    fn client_id(&self) -> u16;

    fn dir_path(&self) -> &Vec<u8>;
}

pub struct TxSummary {
    client_id: u16,
    dir_path: Vec<u8>,
}

impl TxSummary {
    pub closed spec fn spec_client(&self) -> u16 {
        self.client_id
    }

    pub closed spec fn spec_dir(&self) -> Seq<u8> {
        self.dir_path@
    }
}

/// The client a per-client directory names: its last path segment read
/// as a decimal client id.
pub open spec fn spec_client_of_dir(dir: Seq<u8>) -> Option<u16> {
    let name = dir.subrange(spec_last_pos(dir, 47) + 1, dir.len() as int);
    if name.len() >= 1 && all_dec_digits(name) && dec_value(name) <= u16::MAX {
        Some(dec_value(name) as u16)
    } else {
        None
    }
}

impl TxSummary {
    /// Reads the owning client out of a directory path; `None` when the
    /// last segment is not a client id.
    pub fn new(dir_path: Vec<u8>) -> (r: Option<TxSummary>)
        ensures
            match r {
                Some(t) => spec_client_of_dir(dir_path@) == Some(t.spec_client())
                    && t.spec_dir() == dir_path@,
                None => spec_client_of_dir(dir_path@) is None,
            },
    {
        let n = dir_path.len();
        let cut = crate::processor::last_pos(dir_path.as_slice(), 47);
        let name_start: usize = match cut {
            Some(i) => i + 1,
            None => 0,
        };
        let name = vstd::slice::slice_subrange(dir_path.as_slice(), name_start, n);
        proof {
            assert(name@ =~= dir_path@.subrange(
                spec_last_pos(dir_path@, 47) + 1,
                dir_path@.len() as int,
            ));
        }
        match parse_dec(name, 65535) {
            Some(v) => Some(TxSummary { client_id: v as u16, dir_path }),
            None => None,
        }
    }
}

impl TxSummaryData for TxSummary {
    fn client_id(&self) -> (r: u16)
        ensures
            r == self.spec_client(),
    {
        self.client_id
    }

    fn dir_path(&self) -> (r: &Vec<u8>)
        ensures
            r@ == self.spec_dir(),
    {
        &self.dir_path
    }
}

} // verus!
