//! The parameters of the VXLAN device and the text form of its addresses.

use crate::nft::{hex_char, hex_fixed, hex_text};
use crate::text::{debug_form, debug_text, join, join_spec, lemma_split_join, split, split_on, views};
use vstd::prelude::*;

verus! {

broadcast use crate::text::lemma_views_push;

/// The name of the tunnel device.
pub const DEVICE: &'static str = "vxlan.calico";

/// The network identifier of the tunnel.
pub const VNI: u32 = 4096;

/// The UDP port of the tunnel.
pub const PORT: u16 = 4789;

/// The MTU of the tunnel: that of the underlay less what encapsulation adds.
pub const MTU: u32 = 1450;

/// The texts of the bytes of a hardware address.
pub open spec fn byte_texts(b: Seq<u8>) -> Seq<Seq<char>> {
    Seq::new(b.len(), |i: int| hex_fixed(b[i] as nat, 2))
}

/// A hardware address in text form: its bytes in hexadecimal, separated by colons.
pub open spec fn mac_text(b: Seq<u8>) -> Seq<char> {
    join_spec(byte_texts(b), ":"@)
}

/// A hardware address in text form.
pub fn fmt_mac(b: &[u8]) -> (r: String)
    ensures
        r@ == mac_text(b@),
{
    let mut parts: Vec<String> = Vec::new();
    for i in 0..b.len()
        invariant
            views(parts@) == byte_texts(b@).take(i as int),
    {
        parts.push(hex_text(b[i] as u32, 2));
        assert(views(parts@) =~= byte_texts(b@).take(i + 1));
    }
    assert(views(parts@) =~= byte_texts(b@));
    join(&parts, ":")
}

/// The value of a hexadecimal digit.
pub open spec fn hex_digit(c: char) -> Option<nat> {
    if '0' <= c && c <= '9' {
        Some((c as nat - 48) as nat)
    } else if 'a' <= c && c <= 'f' {
        Some((c as nat - 87) as nat)
    } else if 'A' <= c && c <= 'F' {
        Some((c as nat - 55) as nat)
    } else {
        None
    }
}

/// The number that a run of hexadecimal digits denotes.
pub open spec fn hex_run(s: Seq<char>) -> Option<nat>
    decreases s.len(),
{
    if s.len() == 0 {
        Some(0)
    } else {
        match (hex_run(s.drop_last()), hex_digit(s.last())) {
            (Some(n), Some(d)) => Some(n * 16 + d),
            _ => None,
        }
    }
}

/// The byte that a text denotes: an optional `+`, then hexadecimal digits and nothing else,
/// of a value that fits.
pub open spec fn hex_byte(s: Seq<char>) -> Option<nat> {
    let d = crate::text::unsign(s);
    if d.len() == 0 {
        None
    } else {
        match hex_run(d) {
            Some(n) => if n <= 255 {
                Some(n)
            } else {
                None
            },
            None => None,
        }
    }
}

/// What `u8::from_str_radix` says of a text that denotes no byte.
pub uninterp spec fn hex_error(s: Seq<char>) -> Seq<char>;

/// `u8::from_str_radix` with radix 16 reads an optional `+` followed by hexadecimal digits
/// only, and refuses a value that does not fit; the words of a refusal depend on the text
/// alone.
#[verifier::external_body]
fn byte_from_hex(s: &str) -> (r: Result<u8, String>)
    ensures
        match r {
            Ok(v) => hex_byte(s@) == Some(v as nat),
            Err(e) => hex_byte(s@) is None && e@ == hex_error(s@),
        },
{
    match u8::from_str_radix(s, 16) {
        Ok(v) => Ok(v),
        Err(e) => Err(e.to_string()),
    }
}

/// The bytes that the first `n` parts denote; an error is the first part that denotes none.
pub open spec fn mac_first(parts: Seq<Seq<char>>, n: nat) -> Result<Seq<u8>, Seq<char>>
    decreases n,
{
    if n == 0 {
        Ok(Seq::empty())
    } else {
        match mac_first(parts, (n - 1) as nat) {
            Err(p) => Err(p),
            Ok(b) => match hex_byte(parts[n - 1]) {
                Some(v) => Ok(b.push(v as u8)),
                None => Err(parts[n - 1]),
            },
        }
    }
}

/// The hardware address that a text denotes, or the words of the refusal.
pub open spec fn mac_value(s: Seq<char>) -> Result<Seq<u8>, Seq<char>> {
    let parts = split_on(s, ':');
    if parts.len() != 6 {
        Err("bad MAC "@ + debug_form(s))
    } else {
        match mac_first(parts, 6) {
            Ok(b) => Ok(b),
            Err(p) => Err("bad MAC byte "@ + debug_form(p) + ": "@ + hex_error(p)),
        }
    }
}

/// Once a part is refused, the whole is.
proof fn lemma_mac_first_error(parts: Seq<Seq<char>>, n: nat, m: nat)
    requires
        n <= m,
        mac_first(parts, n) is Err,
    ensures
        mac_first(parts, m) == mac_first(parts, n),
    decreases m,
{
    if n < m {
        lemma_mac_first_error(parts, n, (m - 1) as nat);
    }
}

/// Reads a hardware address: six bytes in hexadecimal, separated by colons.
pub fn parse_mac(s: &str) -> (r: Result<[u8; 6], String>)
    ensures
        match r {
            Ok(b) => mac_value(s@) == Ok::<Seq<u8>, Seq<char>>(b@),
            Err(e) => mac_value(s@) == Err::<Seq<u8>, Seq<char>>(e@),
        },
{
    let parts = split(s, ':');
    let ghost pv = split_on(s@, ':');
    assert(views(parts@).len() == parts@.len());
    if parts.len() != 6 {
        let mut e = "bad MAC ".to_owned();
        e.push_str(debug_text(s).as_str());
        return Err(e);
    }
    let mut out: [u8; 6] = [0; 6];
    assert(out@.take(0) =~= Seq::<u8>::empty());
    for i in 0..6usize
        invariant
            parts@.len() == 6,
            views(parts@) == pv,
            pv == split_on(s@, ':'),
            mac_first(pv, i as nat) == Ok::<Seq<u8>, Seq<char>>(out@.take(i as int)),
    {
        let part = parts[i].as_str();
        assert(pv[i as int] == part@);
        match byte_from_hex(part) {
            Ok(v) => {
                let ghost before = out@;
                out[i] = v;
                assert(out@.take(i + 1) =~= before.take(i as int).push(v));
            },
            Err(m) => {
                proof {
                    lemma_mac_first_error(pv, (i + 1) as nat, 6);
                }
                let mut e = "bad MAC byte ".to_owned();
                e.push_str(debug_text(part).as_str());
                e.push_str(": ");
                e.push_str(m.as_str());
                return Err(e);
            },
        }
    }
    assert(out@.take(6) =~= out@);
    Ok(out)
}

/// A byte written in hexadecimal reads back as itself.
proof fn lemma_byte_reads_back(b: u8)
    ensures
        hex_byte(hex_fixed(b as nat, 2)) == Some(b as nat),
        !hex_fixed(b as nat, 2).contains(':'),
{
    let n = b as nat;
    let s = hex_fixed(n, 2);
    reveal_with_fuel(hex_fixed, 3);
    assert(s =~= seq![hex_char(n / 16 % 16), hex_char(n % 16)]);
    let one = s.drop_last();
    assert(one =~= seq![hex_char(n / 16 % 16)]);
    assert(one.drop_last() =~= Seq::<char>::empty());
    reveal_with_fuel(hex_run, 3);
    assert(hex_run(one) == Some(n / 16));
    assert(hex_run(s) == Some(n / 16 * 16 + n % 16));
    assert(crate::text::unsign(s) == s);
}

/// The first `n` bytes written in hexadecimal read back as themselves.
proof fn lemma_bytes_read_back(b: Seq<u8>, n: nat)
    requires
        n <= b.len(),
    ensures
        mac_first(byte_texts(b), n) == Ok::<Seq<u8>, Seq<char>>(b.take(n as int)),
        forall|i: int| 0 <= i < n ==> !(#[trigger] byte_texts(b)[i]).contains(':'),
    decreases n,
{
    if n > 0 {
        lemma_bytes_read_back(b, (n - 1) as nat);
        lemma_byte_reads_back(b[n - 1]);
        assert(b.take(n as int) =~= b.take(n - 1).push(b[n - 1]));
    } else {
        assert(b.take(0) =~= Seq::<u8>::empty());
    }
}

/// A hardware address reads back from its text form as itself.
pub proof fn law_mac_round_trips(b: Seq<u8>)
    requires
        b.len() == 6,
    ensures
        mac_value(mac_text(b)) == Ok::<Seq<u8>, Seq<char>>(b),
{
    lemma_bytes_read_back(b, 6);
    reveal_strlit(":");
    assert(":"@ =~= seq![':']);
    lemma_split_join(byte_texts(b), ":"@, ':', 6);
    assert(byte_texts(b).take(6) =~= byte_texts(b));
    assert(b.take(6) =~= b);
}

} // verus!
