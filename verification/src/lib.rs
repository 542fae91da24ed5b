//! Parse, enumerate, and test IPv4 and IPv6 CIDR blocks and address ranges.
//!
//! Every block, range and address is held as plain integers, and every
//! operation is specified over a mathematical model: a block is an aligned
//! run of `2^(width - prefix)` addresses, a range is a pair of endpoints.

pub mod addr;
pub mod block;
pub mod capped;
pub mod cidr;
pub mod convert;
pub mod error;
pub mod laws;
pub mod notation;
pub mod parse;
pub mod range;
pub mod read;
pub mod report;
pub mod roundtrip;
pub mod roundtrip6;
pub mod set;
pub mod show;
pub mod text;
pub mod vlsm;

pub use addr::{IpAddr, Ipv4Addr, Ipv6Addr};
pub use capped::aggregate_max_prefix;
pub use cidr::{IpCidr, Ipv4AddrIter, Ipv4Cidr, Ipv4Subnets, Ipv6AddrIter, Ipv6Cidr, Ipv6Subnets};
pub use error::ParseError;
pub use range::{IpRange, Ipv4Range, Ipv6Range};
pub use set::{aggregate, IpSet, IpSetIter};
