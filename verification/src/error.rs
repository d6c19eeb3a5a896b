//! The typed failure of a check-mode run.

use vstd::prelude::*;
use crate::strutil::{dec_str, push_dec};

verus! {

/// Why a check-mode run fails: the workspace still has dependencies that
/// could be consolidated, or conflicts that could not be resolved.
#[derive(Debug, Clone, Copy, PartialEq, Eq, Structural)]
pub enum CheckFailure {
    /// This many dependencies could be consolidated.
    Consolidation(usize),
    /// This many conflicts could not be resolved.
    Conflicts(usize),
}

impl CheckFailure {
    /// The failure's message text.
    pub open spec fn spec_message(self) -> Seq<char> {
        match self {
            CheckFailure::Consolidation(n) => "Check failed: "@ + dec_str(n as nat)
                + " dependencies could be consolidated"@,
            CheckFailure::Conflicts(n) => "Check failed: "@ + dec_str(n as nat)
                + " unresolved conflicts"@,
        }
    }

    /// Renders the failure as human-readable text.
    pub fn message(&self) -> (r: String)
        ensures
            r@ == self.spec_message(),
    {
        let mut s = String::new();
        s.append("Check failed: ");
        match self {
            CheckFailure::Consolidation(n) => {
                push_dec(&mut s, *n as u64);
                s.append(" dependencies could be consolidated");
            },
            CheckFailure::Conflicts(n) => {
                push_dec(&mut s, *n as u64);
                s.append(" unresolved conflicts");
            },
        }
        proof {
            assert(s@ =~= self.spec_message());
        }
        s
    }
}

} // verus!
