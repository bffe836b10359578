//! What an update needs to know: whom to log in as, and which name to point
//! at which address.

use crate::address::{AddrParseError, Ipv4Address, ToIpAddrs};
use vstd::prelude::*;
use vstd::string::StringExecFns;

verus! {

/// The account, the name and the address of one update.
#[derive(Debug)]
pub struct Information {
    pub user: String,
    pub pass: String,
    pub host: String,
    pub dom: String,
    pub ipaddr: Ipv4Address,
}

impl Information {
    /// Puts an update together. The address is taken from `ipaddr`; where
    /// that is a text, it has to be the dotted-quad text of an address.
    pub fn new<T: ToIpAddrs>(user: &str, pass: &str, host: &str, dom: &str, ipaddr: T) -> (r: Result<
        Information,
        AddrParseError,
    >)
        ensures
            r is Ok <==> ipaddr.ip_addrs() is Some,
            r matches Ok(info) ==> {
                &&& info.user@ == user@
                &&& info.pass@ == pass@
                &&& info.host@ == host@
                &&& info.dom@ == dom@
                &&& Some(info.ipaddr) == ipaddr.ip_addrs()
            },
    {
        match ipaddr.to_ip_addrs() {
            Ok(addr) => Ok(
                Information {
                    user: String::from_str(user),
                    pass: String::from_str(pass),
                    host: String::from_str(host),
                    dom: String::from_str(dom),
                    ipaddr: addr,
                },
            ),
            Err(e) => Err(e),
        }
    }
}

} // verus!
