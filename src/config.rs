//! Server settings derived from configuration values.
use vstd::prelude::*;
use vstd::string::*;
use crate::decimal::{decimal, to_decimal};

verus! {

/// The host part of the listen address for a deployment stage: every
/// interface in production, the loopback interface otherwise.
pub open spec fn listen_host(stage: Seq<char>) -> Seq<char> {
    if stage == "prod"@ {
        "0.0.0.0"@
    } else {
        "127.0.0.1"@
    }
}

/// The `host:port` address the server listens on for the given port and stage.
pub fn get_listen_address(port: u16, stage: &str) -> (r: String)
    ensures
        r@ == listen_host(stage@) + ":"@ + decimal(port as nat),
{
    let prod = String::from_str("prod");
    let stage_text = String::from_str(stage);
    let host = if stage_text == prod {
        String::from_str("0.0.0.0")
    } else {
        String::from_str("127.0.0.1")
    };
    let with_colon = host.concat(":");
    let port_text = to_decimal(port as u64);
    with_colon.concat(port_text.as_str())
}

} // verus!
