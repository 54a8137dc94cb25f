//! Server configuration: the addresses the emulator binds and trusts.

use vstd::prelude::*;

verus! {

/// The emulator's own UDP address and, when one is set, the controller
/// address whose datagrams carry topology commands.
pub struct ServerConfig {
    /// The address text the server socket binds.
    pub local_addr: String,
    /// The address text control datagrams must come from, if any.
    pub controller_addr: Option<String>,
}

impl ServerConfig {
    /// A configuration from its two address texts.
    pub fn new(local_addr: String, controller_addr: Option<String>) -> (r: ServerConfig)
        ensures
            r.local_addr@ == local_addr@,
            r.controller_addr is Some <==> controller_addr is Some,
            controller_addr is Some ==> r.controller_addr.unwrap()@ == controller_addr.unwrap()@,
    {
        ServerConfig { local_addr, controller_addr }
    }

    /// The address text the server socket binds.
    pub fn local_addr(&self) -> (r: &str)
        ensures
            r@ == self.local_addr@,
    {
        self.local_addr.as_str()
    }

    /// The address text control datagrams must come from, if any.
    pub fn controller_addr(&self) -> (r: Option<&str>)
        ensures
            r is Some <==> self.controller_addr is Some,
            r is Some ==> r.unwrap()@ == self.controller_addr.unwrap()@,
    {
        if let Some(s) = &self.controller_addr {
            Some(s.as_str())
        } else {
            None
        }
    }
}

} // verus!
