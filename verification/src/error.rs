//! The library's error value: where it arose and what went wrong, as
//! plain strings for the caller to render.
use vstd::prelude::*;

verus! {

#[derive(Clone, Debug)]
pub struct AppError {
    pub path: String,
    pub method: String,
    pub tag: String,
    pub err: String,
}

impl AppError {
    pub fn new(path: &str, method: &str, tag: &str, err: &str) -> (r: AppError)
        ensures
            r.path@ == path@,
            r.method@ == method@,
            r.tag@ == tag@,
            r.err@ == err@,
    {
        AppError {
            path: path.to_owned(),
            method: method.to_owned(),
            tag: tag.to_owned(),
            err: err.to_owned(),
        }
    }
}

} // verus!
