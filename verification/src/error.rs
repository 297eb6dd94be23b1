//! Error value shared by the analyzer's entry points.
//!
//! Every failure surfaced to a caller carries a message, a stable category
//! string (`docker`, `layer`, `blob`, ...), an optional error code from the
//! registry, and an HTTP status code used by the web front end.

use vstd::prelude::*;

verus! {

/// Structured error: message, category, registry code and HTTP status.
#[derive(Debug, Clone, PartialEq)]
pub struct HTTPError {
    pub message: String,
    pub category: String,
    pub code: String,
    pub status: u16,
}

impl Default for HTTPError {
    /// The default error is empty with status 400.
    fn default() -> (r: Self)
        ensures
            r.message@ == Seq::<char>::empty(),
            r.category@ == Seq::<char>::empty(),
            r.code@ == Seq::<char>::empty(),
            r.status == 400,
    {
        HTTPError {
            message: String::new(),
            category: String::new(),
            code: String::new(),
            status: 400,
        }
    }
}

impl HTTPError {
    /// Build an error from a message alone; category and code stay empty.
    pub fn new(message: &str) -> (r: Self)
        ensures
            r.message@ == message@,
            r.category@ == Seq::<char>::empty(),
            r.code@ == Seq::<char>::empty(),
            r.status == 400,
    {
        HTTPError {
            message: String::from_str(message),
            category: String::new(),
            code: String::new(),
            status: 400,
        }
    }

    /// Build an error from a message and a category.
    pub fn new_with_category(message: &str, category: &str) -> (r: Self)
        ensures
            r.message@ == message@,
            r.category@ == category@,
            r.code@ == Seq::<char>::empty(),
            r.status == 400,
    {
        HTTPError {
            message: String::from_str(message),
            category: String::from_str(category),
            code: String::new(),
            status: 400,
        }
    }

    /// Build an error from a message, a category and an HTTP status code.
    pub fn new_with_category_status(message: &str, category: &str, status: u16) -> (r: Self)
        ensures
            r.message@ == message@,
            r.category@ == category@,
            r.code@ == Seq::<char>::empty(),
            r.status == status,
    {
        HTTPError {
            message: String::from_str(message),
            category: String::from_str(category),
            code: String::new(),
            status,
        }
    }
}

} // verus!
