//! Response envelopes of an HTTP API.

use vstd::prelude::*;

verus! {

/// An empty payload.
#[derive(Debug, Default, Clone, Copy)]
pub struct Empty;

/// An error reply: a code and a message.
#[derive(Debug, Clone)]
pub struct CommonError {
    pub code: i16,
    pub message: String,
}

impl<'a> From<(i16, &'a str)> for CommonError {
    fn from(value: (i16, &'a str)) -> (r: Self)
        ensures
            r.code == value.0,
            r.message@ == value.1@,
    {
        CommonError { code: value.0, message: value.1.to_owned() }
    }
}

impl<'a> vstd::std_specs::convert::FromSpecImpl<(i16, &'a str)> for CommonError {
    open spec fn obeys_from_spec() -> bool {
        false
    }

    open spec fn from_spec(v: (i16, &'a str)) -> Self {
        arbitrary()
    }
}

} // verus!
