//! The client-side connection handle: it records which cache server a
//! client talks to. Opening sockets and exchanging bytes is the transport
//! layer's work and stays outside this crate; callers read the address and
//! port back through the accessors.

use vstd::prelude::*;
use vstd::string::*;

verus! {

/// A handle naming a cache server by address and port.
pub struct MementoPool {
    address: String,
    port: usize,
}

impl MementoPool {
    /// The recorded server address.
    pub closed spec fn spec_address(self) -> Seq<char> {
        self.address@
    }

    /// The recorded server port.
    pub closed spec fn spec_port(self) -> nat {
        self.port as nat
    }

    /// Record the server's address and port.
    pub fn connect(address: &str, port: usize) -> (r: Self)
        ensures
            r.spec_address() == address@,
            r.spec_port() == port,
    {
        MementoPool { address: address.to_owned(), port }
    }

    /// The address this handle points at.
    pub fn address(&self) -> (r: &str)
        ensures
            r@ == self.spec_address(),
    {
        self.address.as_str()
    }

    /// The port this handle points at.
    pub fn port(&self) -> (r: usize)
        ensures
            r == self.spec_port(),
    {
        self.port
    }
}

} // verus!
