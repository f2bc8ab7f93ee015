//! Identifying a kernel interface: by numeric index or by name.

use vstd::prelude::*;
use vstd::string::StringSliceAdditionalSpecFns;

verus! {

/// Byte limit on an interface name, terminator included.
pub const IFNAMSIZ: usize = 16;

/// The UTF-8 bytes of a character sequence: how a name travels on the wire.
pub open spec fn str_bytes(s: Seq<char>) -> Seq<u8> {
    vstd::utf8::encode_utf8(s)
}

/// Relies on String::from_utf8: it succeeds exactly on valid UTF-8 input
/// and the resulting string's bytes are the input, unchanged.
#[verifier::external_body]
pub fn string_from_utf8(v: Vec<u8>) -> (r: Option<String>)
    ensures
        r is Some <==> vstd::utf8::valid_utf8(v@),
        match r {
            Some(s) => str_bytes(s@) == v@,
            None => true,
        },
{
    String::from_utf8(v).ok()
}

/// A kernel interface, identified by either its numeric index or its name
/// (mutually exclusive).
#[derive(Clone, Debug, PartialEq, Eq)]
pub enum DeviceInterface {
    Index(u32),
    Name(String),
}

/// Mathematical model of an interface identity; a name is its wire bytes.
#[verifier::ext_equal]
pub ghost enum DeviceInterfaceV {
    Index(u32),
    Name(Seq<u8>),
}

impl View for DeviceInterface {
    type V = DeviceInterfaceV;

    open spec fn view(&self) -> DeviceInterfaceV {
        match self {
            DeviceInterface::Index(i) => DeviceInterfaceV::Index(*i),
            DeviceInterface::Name(n) => DeviceInterfaceV::Name(str_bytes(n@)),
        }
    }
}

/// A usable interface identity: a name must be valid text, strictly
/// between 0 and `IFNAMSIZ` bytes long.
pub open spec fn iface_wf(i: DeviceInterfaceV) -> bool {
    match i {
        DeviceInterfaceV::Index(_) => true,
        DeviceInterfaceV::Name(n) => 0 < n.len() < IFNAMSIZ && vstd::utf8::valid_utf8(n),
    }
}

impl DeviceInterface {
    pub fn from_index(index: u32) -> (r: Self)
        ensures
            r@ == DeviceInterfaceV::Index(index),
    {
        DeviceInterface::Index(index)
    }

    pub fn from_name(name: String) -> (r: Self)
        ensures
            r@ == DeviceInterfaceV::Name(str_bytes(name@)),
    {
        DeviceInterface::Name(name)
    }

    /// Whether the identity may be sent at all: names outside the length
    /// bounds are rejected before any I/O.
    pub fn is_valid(&self) -> (r: bool)
        ensures
            r == iface_wf(self@),
    {
        match self {
            DeviceInterface::Index(_) => true,
            DeviceInterface::Name(n) => {
                let b = n.as_str().as_bytes();
                let len = b.len();
                proof {
                    assert(b@ == str_bytes(n@));
                    vstd::utf8::encode_utf8_valid_utf8(n@);
                }
                0 < len && len < crate::sys::ifnamsiz()
            },
        }
    }
}

} // verus!
