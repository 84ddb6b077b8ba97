//! IP pools and address blocks, as far as the dataplane reads them.

use crate::payload::{field_bool, field_text, field_u64, json_of};
use crate::text::{
    decimal, decimal_text, digit_char, digits_value, is_digit, is_number, lemma_decimal_reads_back,
    lemma_split_append, lemma_split_single, parse_unsigned, split, split_on, to_chars, views,
};
use serde_json::Value;
use vstd::arithmetic::power2::pow2;
use vstd::prelude::*;

verus! {

/// An address of either family, as a number.
#[derive(Debug, Clone, Copy, PartialEq, Eq, Structural)]
pub enum IpAddress {
    /// An IPv4 address.
    V4(u32),
    /// An IPv6 address.
    V6(u128),
}

impl IpAddress {
    /// The number of bits of an address of this family.
    pub open spec fn width(self) -> nat {
        match self {
            IpAddress::V4(_) => 32,
            IpAddress::V6(_) => 128,
        }
    }

    /// The address as a number.
    pub open spec fn bits(self) -> nat {
        match self {
            IpAddress::V4(a) => a as nat,
            IpAddress::V6(a) => a as nat,
        }
    }

    /// Whether the two addresses are of one family.
    pub open spec fn same_family(self, other: IpAddress) -> bool {
        self.width() == other.width()
    }

    /// The number of bits of an address of this family.
    pub fn max_prefix(&self) -> (r: u8)
        ensures
            r == self.width(),
    {
        match self {
            IpAddress::V4(_) => 32,
            IpAddress::V6(_) => 128,
        }
    }
}

/// Whether a text is one octet of a dotted address: one to three digits without a leading
/// zero, at most 255.
pub open spec fn is_octet(s: Seq<char>) -> bool {
    is_number(s) && s.len() <= 3 && (s.len() > 1 ==> s[0] != '0') && digits_value(s) <= 255
}

/// The address that a dotted text denotes.
pub open spec fn ipv4_value(s: Seq<char>) -> Option<nat> {
    let p = split_on(s, '.');
    if p.len() == 4 && is_octet(p[0]) && is_octet(p[1]) && is_octet(p[2]) && is_octet(p[3]) {
        Some(
            (digits_value(p[0]) * 0x100_0000 + digits_value(p[1]) * 0x1_0000 + digits_value(p[2])
                * 0x100 + digits_value(p[3])) as nat,
        )
    } else {
        None
    }
}

/// Reads one octet of a dotted address.
fn parse_octet(s: &str) -> (r: Option<u32>)
    ensures
        match r {
            Some(v) => is_octet(s@) && v == digits_value(s@),
            None => !is_octet(s@),
        },
{
    let v = to_chars(s);
    if v.len() == 0 || v.len() > 3 || v[0] == '+' || (v.len() > 1 && v[0] == '0') {
        assert(v.len() > 0 && v[0] == '+' ==> !crate::text::is_digit(s@[0]));
        return None;
    }
    assert(crate::text::unsign(s@) == s@);
    match parse_unsigned(s, 255) {
        Some(n) => Some(n as u32),
        None => None,
    }
}

/// Reads an IPv4 address in dotted form: four decimal octets, none with a leading zero.
pub fn parse_ipv4(s: &str) -> (r: Option<u32>)
    ensures
        match r {
            Some(v) => ipv4_value(s@) == Some(v as nat),
            None => ipv4_value(s@) is None,
        },
{
    let parts = split(s, '.');
    assert(views(parts@).len() == parts@.len());
    if parts.len() != 4 {
        return None;
    }
    let a = parse_octet(parts[0].as_str());
    let b = parse_octet(parts[1].as_str());
    let c = parse_octet(parts[2].as_str());
    let d = parse_octet(parts[3].as_str());
    assert(views(parts@)[0] == parts@[0]@ && views(parts@)[1] == parts@[1]@ && views(parts@)[2]
        == parts@[2]@ && views(parts@)[3] == parts@[3]@);
    match (a, b, c, d) {
        (Some(a), Some(b), Some(c), Some(d)) => Some(
            a * 0x100_0000 + b * 0x1_0000 + c * 0x100 + d,
        ),
        _ => None,
    }
}

/// The dotted text of an IPv4 address.
pub open spec fn ipv4_form(a: u32) -> Seq<char> {
    ((decimal((a / 0x100_0000) as nat).push('.') + decimal((a / 0x1_0000 % 0x100) as nat)).push('.')
        + decimal((a / 0x100 % 0x100) as nat)).push('.') + decimal((a % 0x100) as nat)
}

/// The dotted text of an IPv4 address.
pub fn ipv4_text(a: u32) -> (r: String)
    ensures
        r@ == ipv4_form(a),
{
    let mut s = decimal_text((a / 0x100_0000) as u64);
    s.push('.');
    s.push_str(decimal_text((a / 0x1_0000 % 0x100) as u64).as_str());
    s.push('.');
    s.push_str(decimal_text((a / 0x100 % 0x100) as u64).as_str());
    s.push('.');
    s.push_str(decimal_text((a % 0x100) as u64).as_str());
    s
}

/// A number below 256 in decimal is an octet, and holds no dot.
proof fn lemma_octet(n: nat)
    requires
        n < 256,
    ensures
        is_octet(decimal(n)),
        digits_value(decimal(n)) == n,
        !decimal(n).contains('.'),
{
    let s = decimal(n);
    lemma_decimal_reads_back(n);
    assert forall|i: int| 0 <= i < s.len() implies s[i] != '.' by {
        assert(is_digit(s[i]));
    }
    if n >= 10 {
        let head = decimal(n / 10);
        assert(s == head.push(digit_char(n % 10)));
        if n >= 100 {
            let first = decimal(n / 10 / 10);
            assert(head == first.push(digit_char(n / 10 % 10)));
            assert(first == seq![digit_char(n / 10 / 10)]);
            assert(s[0] == digit_char(n / 10 / 10));
        } else {
            assert(head == seq![digit_char(n / 10)]);
            assert(s[0] == digit_char(n / 10));
        }
    }
}

/// An IPv4 address is read back from its text.
pub proof fn law_ipv4_text_round_trips(a: u32)
    ensures
        ipv4_value(ipv4_form(a)) == Some(a as nat),
{
    let p = decimal((a / 0x100_0000) as nat);
    let q = decimal((a / 0x1_0000 % 0x100) as nat);
    let r = decimal((a / 0x100 % 0x100) as nat);
    let s = decimal((a % 0x100) as nat);
    lemma_octet((a / 0x100_0000) as nat);
    lemma_octet((a / 0x1_0000 % 0x100) as nat);
    lemma_octet((a / 0x100 % 0x100) as nat);
    lemma_octet((a % 0x100) as nat);
    lemma_split_single(p, '.');
    lemma_split_append(p, q, '.');
    lemma_split_append(p.push('.') + q, r, '.');
    lemma_split_append((p.push('.') + q).push('.') + r, s, '.');
    let parts = split_on(ipv4_form(a), '.');
    assert(parts == seq![p].push(q).push(r).push(s));
    assert(parts.len() == 4 && parts[0] == p && parts[1] == q && parts[2] == r && parts[3] == s);
}

/// An address block.
#[derive(Debug, Clone, Copy, PartialEq, Eq, Structural)]
pub struct Cidr {
    /// An address of the block.
    pub addr: IpAddress,
    /// The number of leading bits that all addresses of the block share.
    pub prefix_len: u8,
}

impl Cidr {
    /// The prefix fits the family.
    pub open spec fn wf(self) -> bool {
        self.prefix_len <= self.addr.width()
    }

    /// The leading bits that all addresses of a block of this length share with `addr`.
    pub open spec fn lead(addr: IpAddress, prefix_len: nat) -> nat {
        addr.bits() / pow2((addr.width() - prefix_len) as nat)
    }

    /// Whether every address of `block` lies in this block.
    pub open spec fn covers(self, block: Cidr) -> bool {
        &&& self.addr.same_family(block.addr)
        &&& self.prefix_len <= block.prefix_len
        &&& Cidr::lead(self.addr, self.prefix_len as nat) == Cidr::lead(
            block.addr,
            self.prefix_len as nat,
        )
    }

    /// The block of `addr` with the given prefix length; none where that does not fit.
    pub fn new(addr: IpAddress, prefix_len: u8) -> (r: Option<Cidr>)
        ensures
            match r {
                Some(c) => c.wf() && c == (Cidr { addr, prefix_len }),
                None => prefix_len > addr.width(),
            },
    {
        if prefix_len > addr.max_prefix() {
            None
        } else {
            Some(Cidr { addr, prefix_len })
        }
    }

    /// The leading bits of `addr`.
    fn leading(addr: IpAddress, prefix_len: u8) -> (r: u128)
        requires
            prefix_len <= addr.width(),
        ensures
            r == Cidr::lead(addr, prefix_len as nat),
    {
        if prefix_len == 0 {
            proof {
                vstd::arithmetic::power2::lemma2_to64();
                vstd::arithmetic::power2::lemma_pow2_adds(64, 64);
                assert(pow2(64) * pow2(64) == 0x1_0000_0000_0000_0000 * 0x1_0000_0000_0000_0000);
                vstd::arithmetic::div_mod::lemma_basic_div(
                    addr.bits() as int,
                    pow2(addr.width()) as int,
                );
            }
            return 0;
        }
        match addr {
            IpAddress::V4(a) => {
                let shift: u32 = 32 - prefix_len as u32;
                proof {
                    vstd::bits::lemma_u32_shr_is_div(a, shift);
                }
                (a >> shift) as u128
            },
            IpAddress::V6(a) => {
                let shift: u128 = 128 - prefix_len as u128;
                proof {
                    vstd::bits::lemma_u128_shr_is_div(a, shift);
                }
                a >> shift
            },
        }
    }

    /// Whether every address of `block` lies in this block.
    pub fn contains(&self, block: &Cidr) -> (r: bool)
        requires
            self.wf(),
            block.wf(),
        ensures
            r == self.covers(*block),
    {
        if self.addr.max_prefix() != block.addr.max_prefix() || self.prefix_len > block.prefix_len {
            return false;
        }
        Cidr::leading(self.addr, self.prefix_len) == Cidr::leading(block.addr, self.prefix_len)
    }
}

/// Containment of blocks is transitive.
pub proof fn law_covers_is_transitive(a: Cidr, b: Cidr, c: Cidr)
    requires
        a.wf(),
        b.wf(),
        c.wf(),
        a.covers(b),
        b.covers(c),
    ensures
        a.covers(c),
{
    let w = a.addr.width();
    let p = (w - a.prefix_len) as nat;
    let q = (w - b.prefix_len) as nat;
    let d = (p - q) as nat;
    vstd::arithmetic::power2::lemma_pow2_adds(q, d);
    vstd::arithmetic::power2::lemma_pow2_pos(q);
    vstd::arithmetic::power2::lemma_pow2_pos(d);
    vstd::arithmetic::div_mod::lemma_div_denominator(
        b.addr.bits() as int,
        pow2(q) as int,
        pow2(d) as int,
    );
    vstd::arithmetic::div_mod::lemma_div_denominator(
        c.addr.bits() as int,
        pow2(q) as int,
        pow2(d) as int,
    );
}

/// The fields of an IP pool that the dataplane reads, each as far as it is there and has
/// the right type.
#[derive(Debug)]
pub struct PoolFields {
    /// Whether the pool is disabled.
    pub disabled: Option<bool>,
    /// The block in text form.
    pub cidr: Option<String>,
    /// The block that the text denotes, or why it denotes none.
    pub block: Result<Cidr, String>,
    /// Whether traffic that leaves the pools is masqueraded.
    pub nat_outgoing: Option<bool>,
    /// When traffic is encapsulated.
    pub vxlan_mode: Option<String>,
    /// The prefix length of the blocks that nodes own.
    pub block_size: Option<u64>,
}

impl PoolFields {
    /// Reads the specification of a pool. `block` is the block that its text denotes.
    pub fn read(spec: &Value, block: Result<Cidr, String>) -> (r: Self)
        ensures
            r.disabled == json_of(*spec).truth_at("disabled"@),
            r.cidr.deep_view() == json_of(*spec).text_at("cidr"@),
            r.block == block,
            r.nat_outgoing == json_of(*spec).truth_at("natOutgoing"@),
            r.vxlan_mode.deep_view() == json_of(*spec).text_at("vxlanMode"@),
            r.block_size == json_of(*spec).count_at("blockSize"@),
    {
        PoolFields {
            disabled: field_bool(spec, "disabled"),
            cidr: field_text(spec, "cidr"),
            block,
            nat_outgoing: field_bool(spec, "natOutgoing"),
            vxlan_mode: field_text(spec, "vxlanMode"),
            block_size: field_u64(spec, "blockSize"),
        }
    }

    /// Whether the pool is in use; one that does not say otherwise is.
    pub open spec fn enabled(&self) -> bool {
        self.disabled != Some(true)
    }

    /// Whether the pool is in use.
    pub fn is_enabled(&self) -> (r: bool)
        ensures
            r == self.enabled(),
    {
        match self.disabled {
            Some(d) => !d,
            None => true,
        }
    }
}

/// Whether an address is in a block: the leading bits that the block fixes are those of the
/// block.
pub open spec fn is_inside(x: IpAddress, c: Cidr) -> bool {
    let free = pow2((c.addr.width() - c.prefix_len) as nat);
    &&& x.width() == c.addr.width()
    &&& x.bits() / free == c.addr.bits() / free
}

/// A block covers another exactly where it is no longer and holds the other's address; it then
/// holds every address of the other.
pub proof fn law_covering_block_holds_every_address(a: Cidr, b: Cidr, x: IpAddress)
    requires
        a.wf(),
        b.wf(),
    ensures
        a.covers(b) <==> a.prefix_len <= b.prefix_len && is_inside(b.addr, a),
        a.covers(b) && is_inside(x, b) ==> is_inside(x, a),
        a.covers(b) && b.covers(a) ==> a.prefix_len == b.prefix_len && (is_inside(x, a)
            <==> is_inside(x, b)),
        a.covers(a),
{
    if a.covers(b) && is_inside(x, b) {
        let c = Cidr { addr: x, prefix_len: b.prefix_len };
        assert(b.covers(c));
        law_covers_is_transitive(a, b, c);
    }
    if a.covers(b) && b.covers(a) && is_inside(x, a) {
        let c = Cidr { addr: x, prefix_len: a.prefix_len };
        assert(a.covers(c));
        law_covers_is_transitive(b, a, c);
    }
}

} // verus!
