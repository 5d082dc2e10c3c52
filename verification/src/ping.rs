//! The liveness exchange: what to answer to a ping.

use vstd::prelude::*;
use vstd::string::{StrSliceExecFns, StringExecFns};

verus! {

/// The answer to a message: `pong` to `ping`, and `Huh?` to anything else.
pub open spec fn reply_to(message: Seq<char>) -> Seq<char> {
    if message == "ping"@ {
        "pong"@
    } else {
        "Huh?"@
    }
}

/// Answers a message: `pong` to `ping`, and `Huh?` to anything else.
pub fn ping_reply(message: &str) -> (reply: String)
    ensures
        reply@ == reply_to(message@),
{
    proof {
        reveal_strlit("ping");
    }
    if message.unicode_len() == 4 && message.get_char(0) == 'p' && message.get_char(1) == 'i'
        && message.get_char(2) == 'n' && message.get_char(3) == 'g' {
        assert(message@ =~= "ping"@);
        String::from_str("pong")
    } else {
        String::from_str("Huh?")
    }
}

} // verus!
