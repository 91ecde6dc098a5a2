use vstd::prelude::*;
use vstd::string::StringSliceAdditionalSpecFns;

verus! {

/// The transport a query channel is bound over.
#[derive(Clone, Copy, PartialEq, Eq, Structural, Debug)]
pub enum Protocol {
    Tcp,
    Ipc,
    Pgm,
    Epgm,
}

impl Protocol {
    /// The lower-case name of the transport.
    pub fn as_str(&self) -> (r: &'static str)
        ensures
            r@ == self.spec_name(),
    {
        match *self {
            Protocol::Tcp => "tcp",
            Protocol::Ipc => "ipc",
            Protocol::Pgm => "pgm",
            Protocol::Epgm => "epgm",
        }
    }

    /// The name of each transport.
    pub open spec fn spec_name(self) -> Seq<char> {
        match self {
            Protocol::Tcp => "tcp"@,
            Protocol::Ipc => "ipc"@,
            Protocol::Pgm => "pgm"@,
            Protocol::Epgm => "epgm"@,
        }
    }

    /// The transport a name denotes.
    pub open spec fn spec_from_bytes(s: Seq<u8>) -> Option<Protocol> {
        if s == "tcp".spec_bytes() {
            Some(Protocol::Tcp)
        } else if s == "ipc".spec_bytes() {
            Some(Protocol::Ipc)
        } else if s == "pgm".spec_bytes() {
            Some(Protocol::Pgm)
        } else if s == "epgm".spec_bytes() {
            Some(Protocol::Epgm)
        } else {
            None
        }
    }

    /// The transport `protocol` names, or `None` for an unknown name.
    pub fn from_str(protocol: &str) -> (r: Option<Protocol>)
        ensures
            r == Self::spec_from_bytes(protocol.spec_bytes()),
    {
        Self::from_bytes(protocol.as_bytes())
    }

    /// The transport the byte string names, or `None` for an unknown name.
    pub fn from_bytes(protocol: &[u8]) -> (r: Option<Protocol>)
        ensures
            r == Self::spec_from_bytes(protocol@),
    {
        if crate::json::bytes_eq(protocol, "tcp".as_bytes()) {
            Some(Protocol::Tcp)
        } else if crate::json::bytes_eq(protocol, "ipc".as_bytes()) {
            Some(Protocol::Ipc)
        } else if crate::json::bytes_eq(protocol, "pgm".as_bytes()) {
            Some(Protocol::Pgm)
        } else if crate::json::bytes_eq(protocol, "epgm".as_bytes()) {
            Some(Protocol::Epgm)
        } else {
            None
        }
    }
}

} // verus!
