use vstd::prelude::*;

verus! {

/// A peer address. The full address (IP and port together) identifies a
/// live connection: at most one session per address is tracked at a
/// time. The bare IP alone keys the ban table.
///
/// The IP is held as its integer value (an IPv4 address fits in the low
/// 32 bits, an IPv6 address in all 128), so that equality of addresses
/// is plain equality of fields.
#[derive(Clone, Copy, PartialEq, Eq, Structural, Hash, Debug)]
pub struct Address {
    pub ip: u128,
    pub port: u16,
}

} // verus!
