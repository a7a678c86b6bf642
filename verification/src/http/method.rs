//! Request methods.
use vstd::prelude::*;

verus! {

/// A request method. Only `GET` is sent.
#[allow(non_camel_case_types)]
#[derive(Debug, Clone, Copy, PartialEq, Eq, Structural)]
pub enum Method {
    GET,
}

impl Method {
    /// The method's name as it appears in a request line.
    pub open spec fn spec_name(self) -> Seq<char> {
        match self {
            Method::GET => seq!['G', 'E', 'T'],
        }
    }

    pub fn to_string(&self) -> (r: String)
        ensures
            r@ == self.spec_name(),
    {
        match self {
            Method::GET => {
                let r = String::from_str("GET");
                proof {
                    reveal_strlit("GET");
                }
                assert(r@ =~= seq!['G', 'E', 'T']);
                r
            },
        }
    }
}

} // verus!
