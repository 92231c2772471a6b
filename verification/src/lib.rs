//! A small parameter server: parameters with a value and a unit each, that clients
//! read, write and subscribe to over HTTP.
use vstd::prelude::*;

pub mod client;
pub mod config;
pub mod event_laws;
pub mod http;
pub mod lua;
pub mod number;
pub mod params;
pub mod plain;
pub mod script;
pub mod server;
pub mod state;
pub mod state_laws;
pub mod text;
pub mod wire_laws;

pub use crate::client::Connection;
pub use crate::params::parse_param_line;
pub use crate::params::ParamInfo;

verus! {

/// Address the server listens on when no port is configured.
pub const TCP_ADDR_DEFAULT: &'static str = "127.0.0.1:7777";

/// Address the server listens on, given the port that is configured.
pub fn tcp_addr(port: Option<&str>) -> (addr: String)
    ensures
        addr@ == (match port {
            Some(port) => "127.0.0.1:"@ + port@,
            None => TCP_ADDR_DEFAULT@,
        }),
{
    match port {
        Some(port) => {
            let mut addr = String::new();
            addr.append("127.0.0.1:");
            addr.append(port);
            assert(addr@ =~= "127.0.0.1:"@ + port@);
            addr
        },
        None => TCP_ADDR_DEFAULT.to_owned(),
    }
}

/// The next key that was pressed; a native client has no keys of its own.
pub fn poll_key() -> (key: Option<String>)
    ensures
        key is None,
{
    None
}

/// Switches a light; a native client has none.
pub fn set_led(_name: &str, _on: bool) {
}

} // verus!
