//! Conversions from the family-specific types into the family-agnostic
//! ones.

use vstd::prelude::*;

use crate::cidr::{IpCidr, Ipv4Cidr, Ipv6Cidr};
use crate::range::{IpRange, Ipv4Range, Ipv6Range};
use crate::set::IpSet;

verus! {

impl From<Ipv4Cidr> for IpCidr {
    fn from(c: Ipv4Cidr) -> (r: IpCidr) {
        IpCidr::V4(c)
    }
}

impl vstd::std_specs::convert::FromSpecImpl<Ipv4Cidr> for IpCidr {
    open spec fn obeys_from_spec() -> bool {
        true
    }

    open spec fn from_spec(v: Ipv4Cidr) -> IpCidr {
        IpCidr::V4(v)
    }
}

impl From<Ipv6Cidr> for IpCidr {
    fn from(c: Ipv6Cidr) -> (r: IpCidr) {
        IpCidr::V6(c)
    }
}

impl vstd::std_specs::convert::FromSpecImpl<Ipv6Cidr> for IpCidr {
    open spec fn obeys_from_spec() -> bool {
        true
    }

    open spec fn from_spec(v: Ipv6Cidr) -> IpCidr {
        IpCidr::V6(v)
    }
}

impl From<Ipv4Range> for IpRange {
    fn from(g: Ipv4Range) -> (r: IpRange) {
        IpRange::V4(g)
    }
}

impl vstd::std_specs::convert::FromSpecImpl<Ipv4Range> for IpRange {
    open spec fn obeys_from_spec() -> bool {
        true
    }

    open spec fn from_spec(v: Ipv4Range) -> IpRange {
        IpRange::V4(v)
    }
}

impl From<Ipv6Range> for IpRange {
    fn from(g: Ipv6Range) -> (r: IpRange) {
        IpRange::V6(g)
    }
}

impl vstd::std_specs::convert::FromSpecImpl<Ipv6Range> for IpRange {
    open spec fn obeys_from_spec() -> bool {
        true
    }

    open spec fn from_spec(v: Ipv6Range) -> IpRange {
        IpRange::V6(v)
    }
}

impl From<IpCidr> for IpSet {
    fn from(c: IpCidr) -> (r: IpSet) {
        IpSet::Cidr(c)
    }
}

impl vstd::std_specs::convert::FromSpecImpl<IpCidr> for IpSet {
    open spec fn obeys_from_spec() -> bool {
        true
    }

    open spec fn from_spec(v: IpCidr) -> IpSet {
        IpSet::Cidr(v)
    }
}

impl From<IpRange> for IpSet {
    fn from(g: IpRange) -> (r: IpSet) {
        IpSet::Range(g)
    }
}

impl vstd::std_specs::convert::FromSpecImpl<IpRange> for IpSet {
    open spec fn obeys_from_spec() -> bool {
        true
    }

    open spec fn from_spec(v: IpRange) -> IpSet {
        IpSet::Range(v)
    }
}

} // verus!
