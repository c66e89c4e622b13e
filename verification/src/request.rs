//! A plain HTTP request record, as hosts hand it to the runtime: named
//! text fields, header pairs, byte bodies and one free-form value.

use vstd::prelude::*;

use crate::value::Value;

verus! {

/// An HTTP request with its method, URL, headers, body bytes and a
/// free-form attachment.
pub struct HttpRequest {
    pub method: String,
    pub url: String,
    pub headers: Vec<(String, String)>,
    pub body: Vec<u8>,
    pub foo_bar: Vec<u8>,
    pub opaque: Value,
}

/// The method a request gets when none is given.
pub fn default_method() -> (r: String)
    ensures
        r@ == "GET"@,
{
    "GET".to_owned()
}

} // verus!
