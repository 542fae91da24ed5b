//! Reading addresses, blocks, ranges and targets from text.
//!
//! Every reader trims white space where the notation allows it, reports
//! which part of the input failed, and is specified by a function over the
//! input's characters.

use vstd::prelude::*;
use vstd::arithmetic::power2::{lemma_pow2_strictly_increases, pow2};

use crate::addr::{IpAddr, Ipv4Addr, Ipv6Addr};
use crate::block::{block_of, lemma_pow2_divides, Block};
use crate::cidr::{mask_value, IpCidr, Ipv4Cidr, Ipv6Cidr};
use crate::error::{ParseError, ParseFailure};
use crate::parse::{
    find, find_char, ipv4_text, ipv6_text, parse_ipv4_chars, parse_ipv6_chars, parse_u8_text,
    sub_chars, trim, trim_chars, u8_text,
};
use crate::range::{IpRange, Ipv4Range, Ipv6Range};
use crate::set::IpSet;
use crate::text::{chars_of, radix_digits, string_of};

verus! {

// ---------------------------------------------------------------------------
// The notation
// ---------------------------------------------------------------------------

/// The address of a `width`-bit family (32 or 128) written as `s`.
pub open spec fn addr_text(width: nat, s: Seq<char>) -> Option<nat> {
    if width == 32 {
        ipv4_text(s)
    } else {
        ipv6_text(s)
    }
}

/// The prefix length whose network mask is `m` in a `width`-bit family.
pub open spec fn mask_prefix(width: nat, m: nat) -> Option<nat> {
    if exists|p: nat| p <= width && #[trigger] mask_value(width, p) == m {
        Some(choose|p: nat| p <= width && #[trigger] mask_value(width, p) == m)
    } else {
        None
    }
}

/// A prefix written as a decimal number, or else as a network mask.
pub open spec fn prefix_text(width: nat, p: Seq<char>) -> Option<nat> {
    match u8_text(p) {
        Some(n) => Some(n),
        None => match addr_text(width, p) {
            Some(m) => mask_prefix(width, m),
            None => None,
        },
    }
}

/// The address value and the prefix number of `addr/prefix`, before the
/// prefix is checked against the family's width.
pub open spec fn cidr_fields(width: nat, s: Seq<char>) -> Result<(nat, nat), ParseFailure> {
    let t = trim(s);
    if t.len() == 0 {
        Err(ParseFailure::Empty)
    } else {
        match find(t, '/') {
            None => Err(ParseFailure::BadPrefix(t)),
            Some(i) => {
                let a = t.take(i);
                let p = trim(t.skip(i + 1));
                match addr_text(width, trim(a)) {
                    None => Err(ParseFailure::BadAddr(a)),
                    Some(v) => match prefix_text(width, p) {
                        None => Err(ParseFailure::BadPrefix(p)),
                        Some(n) => Ok((v, n)),
                    },
                }
            },
        }
    }
}

/// The block of a `width`-bit family written as `s`.
pub open spec fn cidr_text(width: nat, s: Seq<char>) -> Result<Block, ParseFailure> {
    match cidr_fields(width, s) {
        Ok((v, n)) => if n <= width {
            Ok(block_of(width, v, n))
        } else {
            Err(ParseFailure::BadPrefix(radix_digits(n, 10)))
        },
        Err(e) => Err(e),
    }
}

/// The part of `s` before the first `sep`, once `s` is trimmed, is an
/// IPv4 address.
pub open spec fn leads_with_v4(s: Seq<char>, sep: char) -> bool {
    let t = trim(s);
    match find(t, sep) {
        Some(i) => ipv4_text(trim(t.take(i))) is Some,
        None => false,
    }
}

/// A block of either family: IPv4 is tried first. When the address is an
/// IPv4 address, the IPv4 reading (and its error) stands; otherwise the
/// IPv6 reading does.
pub open spec fn ip_cidr_text(s: Seq<char>) -> Result<Block, ParseFailure> {
    match cidr_text(32, s) {
        Ok(b) => Ok(b),
        Err(e) => if leads_with_v4(s, '/') {
            Err(e)
        } else {
            cidr_text(128, s)
        },
    }
}

/// The endpoints of `start-end` before they are checked for order. An IPv4
/// end may be a bare last octet, which replaces the start's last octet.
pub open spec fn range_fields(width: nat, s: Seq<char>) -> Result<(nat, nat), ParseFailure> {
    let t = trim(s);
    if t.len() == 0 {
        Err(ParseFailure::Empty)
    } else {
        match find(t, '-') {
            None => Err(ParseFailure::Malformed(t)),
            Some(i) => {
                let a = t.take(i);
                let e = t.skip(i + 1);
                match addr_text(width, trim(a)) {
                    None => Err(ParseFailure::BadAddr(a)),
                    Some(sv) => match end_text(width, sv, e) {
                        Ok(x) => Ok((sv, x)),
                        Err(f) => Err(f),
                    },
                }
            },
        }
    }
}

/// The end of a range written as `e`, after a start of value `sv`. An IPv4
/// end may be a bare last octet, which replaces the start's last octet.
pub open spec fn end_text(width: nat, sv: nat, e: Seq<char>) -> Result<nat, ParseFailure> {
    if width == 32 {
        match ipv4_text(trim(e)) {
            Some(x) => Ok(x),
            None => match u8_text(trim(e)) {
                Some(o) => Ok((sv - sv % 256 + o) as nat),
                None => Err(ParseFailure::BadAddr(trim(e))),
            },
        }
    } else {
        match ipv6_text(trim(e)) {
            Some(x) => Ok(x),
            None => Err(ParseFailure::BadAddr(e)),
        }
    }
}

/// The `(start, end)` range of a `width`-bit family written as `s`.
pub open spec fn range_text(width: nat, s: Seq<char>) -> Result<(nat, nat), ParseFailure> {
    match range_fields(width, s) {
        Ok((a, b)) => if a <= b {
            Ok((a, b))
        } else {
            Err(ParseFailure::StartAfterEnd)
        },
        Err(e) => Err(e),
    }
}

/// A range of either family, as `(width, (start, end))`: IPv4 is tried
/// first. When the start is an IPv4 address, the IPv4 reading (and its
/// error) stands; otherwise the IPv6 reading does.
pub open spec fn ip_range_text(s: Seq<char>) -> Result<(nat, (nat, nat)), ParseFailure> {
    match range_text(32, s) {
        Ok(p) => Ok((32, p)),
        Err(e) => if leads_with_v4(s, '-') {
            Err(e)
        } else {
            match range_text(128, s) {
                Ok(p) => Ok((128, p)),
                Err(e) => Err(e),
            }
        },
    }
}

/// An address of either family, as `(width, value)`: IPv4 is tried first.
pub open spec fn ip_addr_text(s: Seq<char>) -> Option<(nat, nat)> {
    match ipv4_text(s) {
        Some(v) => Some((32, v)),
        None => match ipv6_text(s) {
            Some(v) => Some((128, v)),
            None => None,
        },
    }
}

/// What a target denotes: a block, or a range `(width, start, end)`.
pub enum TargetForm {
    Block(Block),
    Span(nat, nat, nat),
}

/// A target: a block if it holds `/`, else a range if it holds `-`, else a
/// single address as a one-address block.
pub open spec fn target_text(s: Seq<char>) -> Result<TargetForm, ParseFailure> {
    let t = trim(s);
    if t.len() == 0 {
        Err(ParseFailure::Empty)
    } else if find(t, '/') is Some {
        match ip_cidr_text(t) {
            Ok(b) => Ok(TargetForm::Block(b)),
            Err(e) => Err(e),
        }
    } else if find(t, '-') is Some {
        match ip_range_text(t) {
            Ok((w, p)) => Ok(TargetForm::Span(w, p.0, p.1)),
            Err(e) => Err(e),
        }
    } else {
        match ip_addr_text(t) {
            Some((w, v)) => Ok(TargetForm::Block(block_of(w, v, w))),
            None => Err(ParseFailure::BadAddr(t)),
        }
    }
}

impl IpSet {
    /// What the target denotes.
    pub open spec fn form(self) -> TargetForm {
        match self {
            IpSet::Cidr(c) => TargetForm::Block(c@),
            IpSet::Range(r) => TargetForm::Span(r.width(), r.span().0, r.span().1),
        }
    }
}

// ---------------------------------------------------------------------------
// Reading
// ---------------------------------------------------------------------------

/// Distinct prefixes have distinct masks.
pub proof fn lemma_mask_value_injective(width: nat, p: nat, q: nat)
    requires
        p <= width,
        q <= width,
        mask_value(width, p) == mask_value(width, q),
    ensures
        p == q,
{
    lemma_pow2_divides((width - p) as nat, width);
    lemma_pow2_divides((width - q) as nat, width);
    if p < q {
        lemma_pow2_strictly_increases((width - q) as nat, (width - p) as nat);
    } else if q < p {
        lemma_pow2_strictly_increases((width - p) as nat, (width - q) as nat);
    }
}

/// The address of a `width`-bit family written as `s`.
fn addr_chars(width: u8, s: &Vec<char>) -> (r: Option<u128>)
    requires
        width == 32 || width == 128,
    ensures
        r matches Some(v) ==> addr_text(width as nat, s@) == Some(v as nat) && (width == 32 ==> v
            <= 0xffff_ffff),
        r is None ==> addr_text(width as nat, s@) is None,
{
    if width == 32 {
        match parse_ipv4_chars(s) {
            Some(v) => Some(v as u128),
            None => None,
        }
    } else {
        parse_ipv6_chars(s)
    }
}

/// The prefix length whose mask is `m`.
fn mask_prefix_of(width: u8, m: u128) -> (r: Option<u8>)
    requires
        width == 32 || width == 128,
        width == 32 ==> m <= 0xffff_ffff,
    ensures
        r matches Some(p) ==> mask_prefix(width as nat, m as nat) == Some(p as nat),
        r is None ==> mask_prefix(width as nat, m as nat) is None,
{
    let r = if width == 32 {
        Ipv4Cidr::mask_to_prefix_len(Ipv4Addr::from_bits(m as u32))
    } else {
        Ipv6Cidr::mask_to_prefix_len(Ipv6Addr::from_bits(m))
    };
    proof {
        let w = width as nat;
        match r {
            Some(p) => {
                assert(p <= w && mask_value(w, p as nat) == m);
                let c = choose|q: nat| q <= w && #[trigger] mask_value(w, q) == m;
                lemma_mask_value_injective(w, p as nat, c);
            },
            None => {
                assert(!exists|q: nat| q <= w && #[trigger] mask_value(w, q) == m);
            },
        }
    }
    r
}

/// The prefix written as `p`: a decimal number, or else a network mask.
fn prefix_chars(width: u8, p: &Vec<char>) -> (r: Option<u8>)
    requires
        width == 32 || width == 128,
    ensures
        r matches Some(n) ==> prefix_text(width as nat, p@) == Some(n as nat),
        r is None ==> prefix_text(width as nat, p@) is None,
{
    match parse_u8_text(p) {
        Some(n) => Some(n),
        None => match addr_chars(width, p) {
            Some(m) => mask_prefix_of(width, m),
            None => None,
        },
    }
}

/// The address value and prefix number of `addr/prefix`.
fn cidr_parts(width: u8, s: &str) -> (r: Result<(u128, u8), ParseError>)
    requires
        width == 32 || width == 128,
    ensures
        r matches Ok((v, n)) ==> cidr_fields(width as nat, s@) == Ok::<(nat, nat), ParseFailure>(
            (v as nat, n as nat),
        ) && (width == 32 ==> v <= 0xffff_ffff),
        r matches Err(e) ==> cidr_fields(width as nat, s@) == Err::<(nat, nat), ParseFailure>(e@),
{
    let cs = chars_of(s);
    let t = trim_chars(&cs);
    if t.len() == 0 {
        return Err(ParseError::Empty);
    }
    let i = match find_char(&t, '/') {
        Some(i) => i,
        None => return Err(ParseError::BadPrefix(string_of(&t))),
    };
    let n = t.len();
    let a = sub_chars(&t, 0, i);
    let p = trim_chars(&sub_chars(&t, i + 1, n));
    proof {
        assert(a@ =~= t@.take(i as int));
        assert(t@.subrange(i + 1, n as int) =~= t@.skip(i + 1));
    }
    let v = match addr_chars(width, &trim_chars(&a)) {
        Some(v) => v,
        None => return Err(ParseError::BadAddr(string_of(&a))),
    };
    match prefix_chars(width, &p) {
        Some(len) => Ok((v, len)),
        None => Err(ParseError::BadPrefix(string_of(&p))),
    }
}

impl Ipv4Cidr {
    /// Read `addr/prefix`, where the prefix is a length or a dotted network
    /// mask; host bits of the address are cleared.
    pub fn from_text(s: &str) -> (r: Result<Ipv4Cidr, ParseError>)
        ensures
            r matches Ok(c) ==> cidr_text(32, s@) == Ok::<Block, ParseFailure>(c@),
            r matches Err(e) ==> cidr_text(32, s@) == Err::<Block, ParseFailure>(e@),
    {
        match cidr_parts(32, s) {
            Ok((v, n)) => Ipv4Cidr::new(Ipv4Addr::from_bits(v as u32), n),
            Err(e) => Err(e),
        }
    }
}

impl Ipv6Cidr {
    /// Read `addr/prefix`, where the prefix is a length or an expanded
    /// network mask; host bits of the address are cleared.
    pub fn from_text(s: &str) -> (r: Result<Ipv6Cidr, ParseError>)
        ensures
            r matches Ok(c) ==> cidr_text(128, s@) == Ok::<Block, ParseFailure>(c@),
            r matches Err(e) ==> cidr_text(128, s@) == Err::<Block, ParseFailure>(e@),
    {
        match cidr_parts(128, s) {
            Ok((v, n)) => Ipv6Cidr::new(Ipv6Addr::from_bits(v), n),
            Err(e) => Err(e),
        }
    }
}

impl IpCidr {
    /// Read a block of either family; IPv4 is tried first. An input whose
    /// address is IPv4 reports the IPv4 error; any other input is read as
    /// IPv6.
    pub fn from_text(s: &str) -> (r: Result<IpCidr, ParseError>)
        ensures
            r matches Ok(c) ==> ip_cidr_text(s@) == Ok::<Block, ParseFailure>(c@),
            r matches Err(e) ==> ip_cidr_text(s@) == Err::<Block, ParseFailure>(e@),
    {
        match Ipv4Cidr::from_text(s) {
            Ok(c) => return Ok(IpCidr::V4(c)),
            Err(e) => {
                if leads_with_v4_text(s, '/') {
                    return Err(e);
                }
            },
        }
        match Ipv6Cidr::from_text(s) {
            Ok(c) => Ok(IpCidr::V6(c)),
            Err(e) => Err(e),
        }
    }
}

/// Whether the part of `s` before the first `sep`, once `s` is trimmed, is
/// an IPv4 address.
fn leads_with_v4_text(s: &str, sep: char) -> (r: bool)
    ensures
        r == leads_with_v4(s@, sep),
{
    let cs = chars_of(s);
    let t = trim_chars(&cs);
    match find_char(&t, sep) {
        Some(i) => {
            let a = sub_chars(&t, 0, i);
            proof {
                assert(a@ =~= t@.take(i as int));
            }
            parse_ipv4_chars(&trim_chars(&a)).is_some()
        },
        None => false,
    }
}

/// The endpoints of `start-end`, before they are checked for order.
fn range_parts(width: u8, s: &str) -> (r: Result<(u128, u128), ParseError>)
    requires
        width == 32 || width == 128,
    ensures
        r matches Ok((a, b)) ==> range_fields(width as nat, s@) == Ok::<(nat, nat), ParseFailure>(
            (a as nat, b as nat),
        ) && (width == 32 ==> a <= 0xffff_ffff && b <= 0xffff_ffff),
        r matches Err(e) ==> range_fields(width as nat, s@) == Err::<(nat, nat), ParseFailure>(e@),
{
    let cs = chars_of(s);
    let t = trim_chars(&cs);
    if t.len() == 0 {
        return Err(ParseError::Empty);
    }
    let i = match find_char(&t, '-') {
        Some(i) => i,
        None => return Err(ParseError::Malformed(string_of(&t))),
    };
    let n = t.len();
    let a = sub_chars(&t, 0, i);
    let e = sub_chars(&t, i + 1, n);
    proof {
        assert(a@ =~= t@.take(i as int));
        assert(e@ =~= t@.skip(i + 1));
    }
    let sv = match addr_chars(width, &trim_chars(&a)) {
        Some(v) => v,
        None => return Err(ParseError::BadAddr(string_of(&a))),
    };
    match end_chars(width, sv, &e) {
        Ok(x) => Ok((sv, x)),
        Err(f) => Err(f),
    }
}

/// The end of a range written as `e`, after a start of value `sv`.
fn end_chars(width: u8, sv: u128, e: &Vec<char>) -> (r: Result<u128, ParseError>)
    requires
        width == 32 || width == 128,
        width == 32 ==> sv <= 0xffff_ffff,
    ensures
        r matches Ok(x) ==> end_text(width as nat, sv as nat, e@) == Ok::<nat, ParseFailure>(x as nat)
            && (width == 32 ==> x <= 0xffff_ffff),
        r matches Err(f) ==> end_text(width as nat, sv as nat, e@) == Err::<nat, ParseFailure>(f@),
{
    let et = trim_chars(e);
    if width == 32 {
        match parse_ipv4_chars(&et) {
            Some(x) => Ok(x as u128),
            None => match parse_u8_text(&et) {
                Some(o) => Ok(sv - sv % 256 + o as u128),
                None => Err(ParseError::BadAddr(string_of(&et))),
            },
        }
    } else {
        match parse_ipv6_chars(&et) {
            Some(x) => Ok(x),
            None => Err(ParseError::BadAddr(string_of(e))),
        }
    }
}

impl Ipv4Range {
    /// Read `start-end`, where `end` is a full address or a bare last octet
    /// (`192.168.1.1-50`, taking the start's first three octets).
    pub fn from_text(s: &str) -> (r: Result<Ipv4Range, ParseError>)
        ensures
            r matches Ok(g) ==> range_text(32, s@) == Ok::<(nat, nat), ParseFailure>(g@),
            r matches Err(e) ==> range_text(32, s@) == Err::<(nat, nat), ParseFailure>(e@),
    {
        match range_parts(32, s) {
            Ok((a, b)) => Ipv4Range::new(Ipv4Addr::from_bits(a as u32), Ipv4Addr::from_bits(b as u32)),
            Err(e) => Err(e),
        }
    }
}

impl Ipv6Range {
    /// Read `start-end`, both full IPv6 addresses.
    pub fn from_text(s: &str) -> (r: Result<Ipv6Range, ParseError>)
        ensures
            r matches Ok(g) ==> range_text(128, s@) == Ok::<(nat, nat), ParseFailure>(g@),
            r matches Err(e) ==> range_text(128, s@) == Err::<(nat, nat), ParseFailure>(e@),
    {
        match range_parts(128, s) {
            Ok((a, b)) => Ipv6Range::new(Ipv6Addr::from_bits(a), Ipv6Addr::from_bits(b)),
            Err(e) => Err(e),
        }
    }
}

impl IpRange {
    /// Read a range of either family; IPv4 is tried first. An input whose
    /// start is IPv4 reports the IPv4 error; any other input is read as
    /// IPv6.
    pub fn from_text(s: &str) -> (r: Result<IpRange, ParseError>)
        ensures
            r matches Ok(g) ==> ip_range_text(s@) == Ok::<(nat, (nat, nat)), ParseFailure>(
                (g.width(), g.span()),
            ),
            r matches Err(e) ==> ip_range_text(s@) == Err::<(nat, (nat, nat)), ParseFailure>(e@),
    {
        match Ipv4Range::from_text(s) {
            Ok(g) => return Ok(IpRange::V4(g)),
            Err(e) => {
                if leads_with_v4_text(s, '-') {
                    return Err(e);
                }
            },
        }
        match Ipv6Range::from_text(s) {
            Ok(g) => Ok(IpRange::V6(g)),
            Err(e) => Err(e),
        }
    }
}

impl Ipv4Addr {
    /// Read a dotted-decimal IPv4 address.
    pub fn from_text(s: &str) -> (r: Result<Ipv4Addr, ParseError>)
        ensures
            r matches Ok(a) ==> ipv4_text(s@) == Some(a@ as nat),
            r matches Err(e) ==> ipv4_text(s@) is None && e@ == ParseFailure::BadAddr(s@),
    {
        let cs = chars_of(s);
        match parse_ipv4_chars(&cs) {
            Some(v) => Ok(Ipv4Addr::from_bits(v)),
            None => Err(ParseError::BadAddr(string_of(&cs))),
        }
    }
}

impl Ipv6Addr {
    /// Read an IPv6 address in the standard notation.
    pub fn from_text(s: &str) -> (r: Result<Ipv6Addr, ParseError>)
        ensures
            r matches Ok(a) ==> ipv6_text(s@) == Some(a@ as nat),
            r matches Err(e) ==> ipv6_text(s@) is None && e@ == ParseFailure::BadAddr(s@),
    {
        let cs = chars_of(s);
        match parse_ipv6_chars(&cs) {
            Some(v) => Ok(Ipv6Addr::from_bits(v)),
            None => Err(ParseError::BadAddr(string_of(&cs))),
        }
    }
}

impl IpAddr {
    /// Read an address of either family; IPv4 is tried first.
    pub fn from_text(s: &str) -> (r: Result<IpAddr, ParseError>)
        ensures
            r matches Ok(a) ==> ip_addr_text(s@) == Some((a.width(), a.value())),
            r matches Err(e) ==> ip_addr_text(s@) is None && e@ == ParseFailure::BadAddr(s@),
    {
        let cs = chars_of(s);
        match parse_ipv4_chars(&cs) {
            Some(v) => return Ok(IpAddr::V4(Ipv4Addr::from_bits(v))),
            None => {},
        }
        match parse_ipv6_chars(&cs) {
            Some(v) => Ok(IpAddr::V6(Ipv6Addr::from_bits(v))),
            None => Err(ParseError::BadAddr(string_of(&cs))),
        }
    }
}

impl IpSet {
    /// Read a target: a block if it holds `/`, a range if it holds `-`,
    /// otherwise a single address, taken as a one-address block.
    pub fn from_text(s: &str) -> (r: Result<IpSet, ParseError>)
        ensures
            r matches Ok(x) ==> target_text(s@) == Ok::<TargetForm, ParseFailure>(x.form()),
            r matches Err(e) ==> target_text(s@) == Err::<TargetForm, ParseFailure>(e@),
    {
        let cs = chars_of(s);
        let t = trim_chars(&cs);
        if t.len() == 0 {
            return Err(ParseError::Empty);
        }
        let ts = string_of(&t);
        if find_char(&t, '/').is_some() {
            return match IpCidr::from_text(ts.as_str()) {
                Ok(c) => Ok(IpSet::Cidr(c)),
                Err(e) => Err(e),
            };
        }
        if find_char(&t, '-').is_some() {
            return match IpRange::from_text(ts.as_str()) {
                Ok(g) => Ok(IpSet::Range(g)),
                Err(e) => Err(e),
            };
        }
        let addr = match parse_ipv4_chars(&t) {
            Some(v) => IpAddr::V4(Ipv4Addr::from_bits(v)),
            None => match parse_ipv6_chars(&t) {
                Some(v) => IpAddr::V6(Ipv6Addr::from_bits(v)),
                None => return Err(ParseError::BadAddr(ts)),
            },
        };
        let prefix: u8 = match addr {
            IpAddr::V4(_) => 32,
            IpAddr::V6(_) => 128,
        };
        match IpCidr::new(addr, prefix) {
            Ok(c) => Ok(IpSet::Cidr(c)),
            Err(e) => Err(e),
        }
    }
}

// ---------------------------------------------------------------------------
// `FromStr`
// ---------------------------------------------------------------------------

impl std::str::FromStr for Ipv4Addr {
    type Err = ParseError;

    fn from_str(s: &str) -> (r: Result<Ipv4Addr, ParseError>)
        ensures
            r matches Ok(a) ==> ipv4_text(s@) == Some(a@ as nat),
            r matches Err(e) ==> ipv4_text(s@) is None && e@ == ParseFailure::BadAddr(s@),
    {
        Ipv4Addr::from_text(s)
    }
}

impl std::str::FromStr for Ipv6Addr {
    type Err = ParseError;

    fn from_str(s: &str) -> (r: Result<Ipv6Addr, ParseError>)
        ensures
            r matches Ok(a) ==> ipv6_text(s@) == Some(a@ as nat),
            r matches Err(e) ==> ipv6_text(s@) is None && e@ == ParseFailure::BadAddr(s@),
    {
        Ipv6Addr::from_text(s)
    }
}

impl std::str::FromStr for IpAddr {
    type Err = ParseError;

    fn from_str(s: &str) -> (r: Result<IpAddr, ParseError>)
        ensures
            r matches Ok(a) ==> ip_addr_text(s@) == Some((a.width(), a.value())),
            r matches Err(e) ==> ip_addr_text(s@) is None && e@ == ParseFailure::BadAddr(s@),
    {
        IpAddr::from_text(s)
    }
}

impl std::str::FromStr for Ipv4Cidr {
    type Err = ParseError;

    fn from_str(s: &str) -> (r: Result<Ipv4Cidr, ParseError>)
        ensures
            r matches Ok(c) ==> cidr_text(32, s@) == Ok::<Block, ParseFailure>(c@),
            r matches Err(e) ==> cidr_text(32, s@) == Err::<Block, ParseFailure>(e@),
    {
        Ipv4Cidr::from_text(s)
    }
}

impl std::str::FromStr for Ipv6Cidr {
    type Err = ParseError;

    fn from_str(s: &str) -> (r: Result<Ipv6Cidr, ParseError>)
        ensures
            r matches Ok(c) ==> cidr_text(128, s@) == Ok::<Block, ParseFailure>(c@),
            r matches Err(e) ==> cidr_text(128, s@) == Err::<Block, ParseFailure>(e@),
    {
        Ipv6Cidr::from_text(s)
    }
}

impl std::str::FromStr for IpCidr {
    type Err = ParseError;

    fn from_str(s: &str) -> (r: Result<IpCidr, ParseError>)
        ensures
            r matches Ok(c) ==> ip_cidr_text(s@) == Ok::<Block, ParseFailure>(c@),
            r matches Err(e) ==> ip_cidr_text(s@) == Err::<Block, ParseFailure>(e@),
    {
        IpCidr::from_text(s)
    }
}

impl std::str::FromStr for Ipv4Range {
    type Err = ParseError;

    fn from_str(s: &str) -> (r: Result<Ipv4Range, ParseError>)
        ensures
            r matches Ok(g) ==> range_text(32, s@) == Ok::<(nat, nat), ParseFailure>(g@),
            r matches Err(e) ==> range_text(32, s@) == Err::<(nat, nat), ParseFailure>(e@),
    {
        Ipv4Range::from_text(s)
    }
}

impl std::str::FromStr for Ipv6Range {
    type Err = ParseError;

    fn from_str(s: &str) -> (r: Result<Ipv6Range, ParseError>)
        ensures
            r matches Ok(g) ==> range_text(128, s@) == Ok::<(nat, nat), ParseFailure>(g@),
            r matches Err(e) ==> range_text(128, s@) == Err::<(nat, nat), ParseFailure>(e@),
    {
        Ipv6Range::from_text(s)
    }
}

impl std::str::FromStr for IpRange {
    type Err = ParseError;

    fn from_str(s: &str) -> (r: Result<IpRange, ParseError>)
        ensures
            r matches Ok(g) ==> ip_range_text(s@) == Ok::<(nat, (nat, nat)), ParseFailure>(
                (g.width(), g.span()),
            ),
            r matches Err(e) ==> ip_range_text(s@) == Err::<(nat, (nat, nat)), ParseFailure>(e@),
    {
        IpRange::from_text(s)
    }
}

impl std::str::FromStr for IpSet {
    type Err = ParseError;

    fn from_str(s: &str) -> (r: Result<IpSet, ParseError>)
        ensures
            r matches Ok(x) ==> target_text(s@) == Ok::<TargetForm, ParseFailure>(x.form()),
            r matches Err(e) ==> target_text(s@) == Err::<TargetForm, ParseFailure>(e@),
    {
        IpSet::from_text(s)
    }
}

} // verus!
