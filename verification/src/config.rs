//! The static security settings the core needs from configuration.

use vstd::prelude::*;

use crate::poll_token::{valid_seed, NONCE_LEN};

verus! {

/// The security section of the static configuration: the shared nonce
/// seed the vote-token codec derives its fixed nonce from.
pub struct Security {
    pub nonce: String,
}

impl Security {
    /// The configured seed is one the cipher can use: short and ASCII.
    pub open spec fn wf(self) -> bool {
        valid_seed(self.nonce@)
    }

    /// Accepts a configured seed if the cipher can use it.
    pub fn new(nonce: String) -> (r: Option<Security>)
        ensures
            match r {
                Some(s) => s.wf() && s.nonce@ == nonce@,
                None => !valid_seed(nonce@),
            },
    {
        broadcast use vstd::slice::axiom_spec_len;

        let s = nonce.as_str();
        if !s.is_ascii() {
            return None;
        }
        proof {
            vstd::string::is_ascii_spec_bytes(s);
        }
        let len = s.as_bytes().len();
        assert(len == nonce@.len());
        if len <= NONCE_LEN {
            Some(Security { nonce })
        } else {
            None
        }
    }
}

} // verus!
