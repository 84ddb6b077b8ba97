//! What the answers of the kernel and of the `nft` tool mean.
//!
//! The calls themselves are made by the program around this crate. It hands in what came
//! back, and the functions here say what the dataplane makes of it: which refusals are
//! harmless because the wanted state is there already, and which are errors.

use crate::pools::IpAddress;
use crate::text::{cat, contains_text, debug_text, find_chars, from_chars, to_chars};
use crate::vxlan::fmt_mac;
use vstd::prelude::*;

verus! {

/// What a request comes to when one kind of refusal counts as success.
pub open spec fn tolerated(
    answer: Result<(), Seq<char>>,
    benign: Seq<char>,
) -> Result<(), Seq<char>> {
    match answer {
        Ok(_) => Ok(()),
        Err(e) => if crate::text::holds_text(e, benign) {
            Ok(())
        } else {
            Err(e)
        },
    }
}

/// An answer with its message as a sequence of characters.
pub open spec fn answer_view(answer: Result<(), String>) -> Result<(), Seq<char>> {
    match answer {
        Ok(_) => Ok(()),
        Err(e) => Err(e@),
    }
}

/// The answer to a request, where a refusal whose message holds `benign` is a success.
pub fn tolerate(answer: Result<(), String>, benign: &str) -> (r: Result<(), String>)
    ensures
        answer_view(r) == tolerated(answer_view(answer), benign@),
{
    match answer {
        Ok(_) => Ok(()),
        Err(e) => if contains_text(e.as_str(), benign) {
            Ok(())
        } else {
            Err(e)
        },
    }
}

/// The outcome of deleting a route: a route that is absent already is deleted.
pub fn route_deleted(answer: Result<(), String>) -> (r: Result<(), String>)
    ensures
        answer_view(r) == tolerated(answer_view(answer), "No such process"@),
{
    tolerate(answer, "No such process")
}

/// The outcome of assigning an address: one that is assigned already stays.
pub fn address_assigned(answer: Result<(), String>) -> (r: Result<(), String>)
    ensures
        answer_view(r) == tolerated(answer_view(answer), "File exists"@),
{
    tolerate(answer, "File exists")
}

/// The index of a link that was looked up by name: a link that the kernel does not know
/// has none.
pub fn link_found(answer: Result<Option<u32>, String>) -> (r: Result<Option<u32>, String>)
    ensures
        match answer {
            Ok(found) => r == Ok::<Option<u32>, String>(found),
            Err(e) => if crate::text::holds_text(e@, "No such device"@) {
                r == Ok::<Option<u32>, String>(None)
            } else {
                r matches Err(out) && out@ == e@
            },
        },
{
    match answer {
        Ok(found) => Ok(found),
        Err(e) => if contains_text(e.as_str(), "No such device") {
            Ok(None)
        } else {
            Err(e)
        },
    }
}

/// Whether `ip` is among the addresses.
pub open spec fn carries(addresses: Seq<u32>, ip: u32) -> bool {
    addresses.contains(ip)
}

/// The index of the link that carries `ip`: the first entry with that address. Each entry
/// is a link's index with IPv4 addresses of that link.
pub fn link_index_for_ip(entries: &Vec<(u32, Vec<u32>)>, ip: u32) -> (r: Option<u32>)
    ensures
        match r {
            Some(index) => exists|i: int|
                0 <= i < entries@.len() && #[trigger] entries@[i].0 == index && carries(
                    entries@[i].1@,
                    ip,
                ) && forall|j: int| 0 <= j < i ==> !carries((#[trigger] entries@[j]).1@, ip),
            None => forall|j: int|
                0 <= j < entries@.len() ==> !carries((#[trigger] entries@[j]).1@, ip),
        },
{
    for i in 0..entries.len()
        invariant
            forall|j: int| 0 <= j < i ==> !carries((#[trigger] entries@[j]).1@, ip),
    {
        let list = &entries[i].1;
        for k in 0..list.len()
            invariant
                i < entries@.len(),
                list@ == entries@[i as int].1@,
                forall|j: int| 0 <= j < i ==> !carries((#[trigger] entries@[j]).1@, ip),
                forall|m: int| 0 <= m < k ==> list@[m] != ip,
        {
            if list[k] == ip {
                let index = entries[i].0;
                proof {
                    assert(list@[k as int] == ip);
                    assert(entries@[i as int].0 == index);
                }
                return Some(index);
            }
        }
    }
    None
}

/// The hardware address of a link, out of its hardware-address attributes: the first one
/// that is six bytes long, in the usual notation.
pub open spec fn mac_of_spec(addresses: Seq<Seq<u8>>) -> Option<Seq<char>>
    decreases addresses.len(),
{
    if addresses.len() == 0 {
        None
    } else if addresses[0].len() == 6 {
        Some(crate::vxlan::mac_text(addresses[0]))
    } else {
        mac_of_spec(addresses.skip(1))
    }
}

/// The hardware address of a link, out of its hardware-address attributes.
pub fn mac_of(addresses: &Vec<Vec<u8>>) -> (r: Option<String>)
    ensures
        r.deep_view() == mac_of_spec(addresses.deep_view()),
{
    let ghost all = addresses.deep_view();
    assert(all.skip(0) =~= all);
    let mut i: usize = 0;
    while i < addresses.len()
        invariant
            i <= addresses@.len(),
            all == addresses.deep_view(),
            mac_of_spec(all) == mac_of_spec(all.skip(i as int)),
        decreases addresses@.len() - i,
    {
        assert(all.skip(i as int)[0] == addresses@[i as int].deep_view());
        assert(addresses@[i as int].deep_view() =~= addresses@[i as int]@);
        if addresses[i].len() == 6 {
            return Some(fmt_mac(addresses[i].as_slice()));
        }
        assert(all.skip(i as int).skip(1) =~= all.skip(i + 1));
        i = i + 1;
    }
    None
}

/// What to do about the tunnel device next.
#[derive(Debug, PartialEq, Eq)]
pub enum DeviceStep {
    /// Create the device and look it up again.
    Create,
    /// Set the MTU of the device with this index and bring it up.
    Configure(u32),
    /// Give up.
    Fail(String),
}

/// The next step for the tunnel device, given the index that a look-up found and whether
/// the device has been created just before.
pub fn device_step(found: Option<u32>, created: bool) -> (r: DeviceStep)
    ensures
        match (found, created) {
            (Some(index), _) => r == DeviceStep::Configure(index),
            (None, false) => r == DeviceStep::Create,
            (None, true) => r matches DeviceStep::Fail(e) && e@
                == "vxlan device missing after create"@,
        },
{
    match found {
        Some(index) => DeviceStep::Configure(index),
        None => if created {
            DeviceStep::Fail("vxlan device missing after create".to_owned())
        } else {
            DeviceStep::Create
        },
    }
}

/// The tunnel device with its hardware address, which it must have.
pub fn device_with_mac(index: u32, mac: Option<String>) -> (r: Result<(u32, String), String>)
    ensures
        match mac {
            Some(m) => r == Ok::<(u32, String), String>((index, m)),
            None => r matches Err(e) && e@ == "vxlan device has no MAC"@,
        },
{
    match mac {
        Some(m) => Ok((index, m)),
        None => Err("vxlan device has no MAC".to_owned()),
    }
}

/// How a route leaves the node.
#[derive(Debug, PartialEq, Eq)]
pub enum GatewayStep {
    /// The route has no gateway, so that nothing is programmed for it.
    Skip,
    /// Program the route through this gateway.
    Via(IpAddress),
    /// The gateway is no address.
    Invalid(String),
}

/// How the route with the given gateway leaves the node. `parsed` is the gateway's
/// address, where its text is one.
pub fn gateway_step(gateway: &Option<String>, parsed: Option<IpAddress>) -> (r: GatewayStep)
    ensures
        match (*gateway, parsed) {
            (None, _) => r == GatewayStep::Skip,
            (Some(_), Some(addr)) => r == GatewayStep::Via(addr),
            (Some(text), None) => r matches GatewayStep::Invalid(e) && e@
                == "invalid route gateway address: "@ + crate::text::debug_form(text@),
        },
{
    match gateway {
        None => GatewayStep::Skip,
        Some(text) => match parsed {
            Some(addr) => GatewayStep::Via(addr),
            None => GatewayStep::Invalid(
                cat("invalid route gateway address: ", debug_text(text.as_str()).as_str()),
            ),
        },
    }
}

/// The outcome of loading a document with `nft`.
pub fn nft_applied(success: bool, stderr: &str) -> (r: Result<(), String>)
    ensures
        success ==> r == Ok::<(), String>(()),
        !success ==> (r matches Err(e) && e@ == "nft failed: "@ + stderr@),
{
    if success {
        Ok(())
    } else {
        Err(cat("nft failed: ", stderr))
    }
}

/// The outcome of listing the rules with `nft`.
pub fn nft_listed(success: bool, stdout: String, stderr: &str) -> (r: Result<String, String>)
    ensures
        success ==> r == Ok::<String, String>(stdout),
        !success ==> (r matches Err(e) && e@ == "nft list failed: "@ + stderr@),
{
    if success {
        Ok(stdout)
    } else {
        Err(cat("nft list failed: ", stderr))
    }
}

/// The outcome of deleting a table with `nft`: a table that is absent already is deleted.
pub fn nft_deleted(success: bool, stderr: &str) -> (r: Result<(), String>)
    ensures
        success || crate::text::holds_text(stderr@, "No such file"@) ==> r == Ok::<(), String>(()),
        !success && !crate::text::holds_text(stderr@, "No such file"@) ==> (r matches Err(e) && e@
            == "nft delete failed: "@ + stderr@),
{
    if success || contains_text(stderr, "No such file") {
        Ok(())
    } else {
        Err(cat("nft delete failed: ", stderr))
    }
}

/// The block that declares the set `name` in a listing of the rules: from the words
/// `set <name> ` to the next closing brace, or to the end where there is none.
pub open spec fn set_block(listed: Seq<char>, name: Seq<char>) -> Option<Seq<char>> {
    match crate::text::find_from(listed, "set "@ + name + " "@, 0) {
        None => None,
        Some(start) => {
            let rest = listed.skip(start);
            match crate::text::find_from(rest, "}"@, 0) {
                Some(end) => Some(rest.take(end + 1)),
                None => Some(rest),
            }
        },
    }
}

/// Whether `member` stands in the block of the set `name` of a listing of the rules. The
/// same text in another set does not count.
pub fn set_contains_member(listed: &str, name: &str, member: &str) -> (r: bool)
    ensures
        r == match set_block(listed@, name@) {
            Some(block) => crate::text::holds_text(block, member@),
            None => false,
        },
{
    let text = to_chars(listed);
    let mut head = "set ".to_owned();
    head.push_str(name);
    head.push_str(" ");
    let head_chars = to_chars(head.as_str());
    let start = match find_chars(text.as_slice(), head_chars.as_slice(), 0) {
        Some(i) => i,
        None => return false,
    };
    let rest: Vec<char> = to_chars(
        from_chars(vstd::slice::slice_subrange(text.as_slice(), start, text.len())).as_str(),
    );
    assert(rest@ =~= listed@.skip(start as int));
    let brace = to_chars("}");
    proof {
        reveal_strlit("}");
    }
    let end: usize = match find_chars(rest.as_slice(), brace.as_slice(), 0) {
        Some(e) => e + 1,
        None => rest.len(),
    };
    let block = from_chars(vstd::slice::slice_subrange(rest.as_slice(), 0, end));
    assert(block@ =~= rest@.take(end as int));
    assert(rest@.take(rest@.len() as int) =~= rest@);
    contains_text(block.as_str(), member)
}

/// The hardware address of a link is the first of its addresses that has six bytes, and it has
/// one exactly where there is such an address.
pub proof fn law_first_hardware_address_is_taken(addresses: Seq<Seq<u8>>, i: int)
    requires
        0 <= i <= addresses.len(),
        forall|j: int| 0 <= j < i ==> (#[trigger] addresses[j]).len() != 6,
        i < addresses.len() ==> addresses[i].len() == 6,
    ensures
        i < addresses.len() ==> mac_of_spec(addresses) == Some(crate::vxlan::mac_text(addresses[i])),
        i == addresses.len() ==> mac_of_spec(addresses) is None,
    decreases i,
{
    if i > 0 {
        let rest = addresses.skip(1);
        assert forall|j: int| 0 <= j < i - 1 implies (#[trigger] rest[j]).len() != 6 by {
            assert(rest[j] == addresses[j + 1]);
        }
        law_first_hardware_address_is_taken(rest, i - 1);
        assert(addresses[0].len() != 6);
    }
}

/// A failure is forgiven exactly where its words hold the benign ones; any other is handed on
/// as it is, and a success stays one.
pub proof fn law_only_benign_failures_are_forgiven(answer: Result<(), Seq<char>>, benign: Seq<char>)
    ensures
        tolerated(answer, benign) is Ok <==> (answer matches Err(e) ==> exists|i: int|
            0 <= i && crate::text::occurs_at(e, benign, i)),
        tolerated(answer, benign) is Err ==> tolerated(answer, benign) == answer,
{
    if let Err(e) = answer {
        crate::text::lemma_find_from(e, benign, 0);
    }
}

/// What is taken for a set in a listing begins with the first mention of the set by its name
/// and ends with the first closing brace behind it, or with the listing where there is none.
/// So a member of another set is not taken for one of this set.
pub proof fn law_set_block_is_that_of_the_set(listed: Seq<char>, name: Seq<char>)
    ensures
        match set_block(listed, name) {
            None => !crate::text::holds_text(listed, "set "@ + name + " "@),
            Some(block) => exists|start: int|
                {
                    &&& #[trigger] crate::text::occurs_at(listed, "set "@ + name + " "@, start)
                    &&& forall|j: int|
                        0 <= j < start ==> !crate::text::occurs_at(
                            listed,
                            "set "@ + name + " "@,
                            j,
                        )
                    &&& start + block.len() <= listed.len()
                    &&& block == listed.subrange(start, start + block.len())
                    &&& forall|j: int| 0 <= j < block.len() - 1 ==> #[trigger] block[j] != '}'
                    &&& start + block.len() == listed.len() || (block.len() > 0 && block.last()
                        == '}')
                },
        },
{
    reveal_strlit("}");
    let mention = "set "@ + name + " "@;
    crate::text::lemma_find_from(listed, mention, 0);
    match crate::text::find_from(listed, mention, 0) {
        None => {
            assert forall|j: int| !crate::text::occurs_at(listed, mention, j) by {
                if 0 <= j {
                }
            }
        },
        Some(start) => {
            let rest = listed.skip(start);
            let block = set_block(listed, name)->0;
            crate::text::lemma_find_from(rest, "}"@, 0);
            assert forall|j: int| 0 <= j < rest.len() && rest[j] == '}' implies
                crate::text::occurs_at(rest, "}"@, j) by {
                assert(rest.subrange(j, j + 1) =~= "}"@);
            }
            match crate::text::find_from(rest, "}"@, 0) {
                Some(end) => {
                    assert(rest.subrange(end, end + 1)[0] == '}');
                    assert(rest[end] == '}');
                    assert(block =~= listed.subrange(start, start + end + 1));
                    assert forall|j: int| 0 <= j < end implies #[trigger] block[j] != '}' by {
                        assert(block[j] == rest[j]);
                    }
                },
                None => {
                    assert(block =~= listed.subrange(start, start + block.len()));
                    assert forall|j: int| 0 <= j < block.len() implies #[trigger] block[j]
                        != '}' by {
                        assert(block[j] == rest[j]);
                    }
                },
            }
            assert(crate::text::occurs_at(listed, mention, start));
        },
    }
}

} // verus!
