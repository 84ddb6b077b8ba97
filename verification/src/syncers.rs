//! The syncers of the different consumers: which kinds they watch, and what they deliver.

use crate::model::{Key, KeyView, ResourceKind};
use crate::seqs::push_item;
use crate::syncer::{SyncStatus, SyncerEvent, SyncerEventView, UpdateType};
use crate::updateprocessors::{
    decoded_view, keys_of, process, process_keys, processed, DecodedSpec, DecodedSpecView, V1KVPair,
    V1KVPairView, V1Key, V1KeyView,
};
use vstd::prelude::*;

verus! {

/// An event for the consumer of a syncer.
#[derive(Debug, PartialEq, Eq)]
pub enum SyncerV1Event {
    /// How far the syncer has come.
    Status(SyncStatus),
    /// Something is new or changed.
    Update { kv: Box<V1KVPair>, update_type: UpdateType },
    /// Something is gone.
    Delete { key: V1Key },
}

/// The mathematical content of a [`SyncerV1Event`].
#[verifier::ext_equal]
pub enum SyncerV1EventView {
    Status(SyncStatus),
    Update { kv: V1KVPairView, update_type: UpdateType },
    Delete { key: V1KeyView },
}

impl DeepView for SyncerV1Event {
    type V = SyncerV1EventView;

    open spec fn deep_view(&self) -> SyncerV1EventView {
        match self {
            SyncerV1Event::Status(s) => SyncerV1EventView::Status(*s),
            SyncerV1Event::Update { kv, update_type } => SyncerV1EventView::Update {
                kv: kv.deep_view(),
                update_type: *update_type,
            },
            SyncerV1Event::Delete { key } => SyncerV1EventView::Delete { key: key.deep_view() },
        }
    }
}

/// Kinds to watch, each in all namespaces.
pub open spec fn everywhere(kinds: Seq<ResourceKind>) -> Seq<(ResourceKind, Option<String>)> {
    Seq::new(kinds.len(), |i: int| (kinds[i], None))
}

/// Kinds to watch, each in all namespaces.
fn watch_everywhere(kinds: &[ResourceKind]) -> (r: Vec<(ResourceKind, Option<String>)>)
    ensures
        r@ == everywhere(kinds@),
{
    let mut out: Vec<(ResourceKind, Option<String>)> = Vec::new();
    for i in 0..kinds.len()
        invariant
            out@ == everywhere(kinds@).take(i as int),
    {
        out.push((kinds[i], None));
        assert(out@ =~= everywhere(kinds@).take(i + 1));
    }
    assert(out@ =~= everywhere(kinds@));
    out
}

/// The kinds that the node agent watches.
pub fn felix_syncer_kinds() -> (r: Vec<(ResourceKind, Option<String>)>)
    ensures
        r@ == everywhere(
            seq![
                ResourceKind::NetworkPolicy,
                ResourceKind::GlobalNetworkPolicy,
                ResourceKind::Profile,
                ResourceKind::WorkloadEndpoint,
                ResourceKind::HostEndpoint,
                ResourceKind::IpPool,
                ResourceKind::FelixConfiguration,
                ResourceKind::Node,
                ResourceKind::NetworkSet,
                ResourceKind::GlobalNetworkSet,
                ResourceKind::Tier,
            ],
        ),
{
    let kinds = [
        ResourceKind::NetworkPolicy,
        ResourceKind::GlobalNetworkPolicy,
        ResourceKind::Profile,
        ResourceKind::WorkloadEndpoint,
        ResourceKind::HostEndpoint,
        ResourceKind::IpPool,
        ResourceKind::FelixConfiguration,
        ResourceKind::Node,
        ResourceKind::NetworkSet,
        ResourceKind::GlobalNetworkSet,
        ResourceKind::Tier,
    ];
    let ghost want = seq![
        ResourceKind::NetworkPolicy,
        ResourceKind::GlobalNetworkPolicy,
        ResourceKind::Profile,
        ResourceKind::WorkloadEndpoint,
        ResourceKind::HostEndpoint,
        ResourceKind::IpPool,
        ResourceKind::FelixConfiguration,
        ResourceKind::Node,
        ResourceKind::NetworkSet,
        ResourceKind::GlobalNetworkSet,
        ResourceKind::Tier,
    ];
    assert(kinds@ =~= want);
    watch_everywhere(&kinds)
}

/// The kinds that the BGP agent watches.
pub fn bgp_syncer_kinds() -> (r: Vec<(ResourceKind, Option<String>)>)
    ensures
        r@ == everywhere(
            seq![
                ResourceKind::BgpConfiguration,
                ResourceKind::BgpPeer,
                ResourceKind::Node,
                ResourceKind::IpPool,
            ],
        ),
{
    let kinds = [
        ResourceKind::BgpConfiguration,
        ResourceKind::BgpPeer,
        ResourceKind::Node,
        ResourceKind::IpPool,
    ];
    assert(kinds@ =~= seq![
        ResourceKind::BgpConfiguration,
        ResourceKind::BgpPeer,
        ResourceKind::Node,
        ResourceKind::IpPool,
    ]);
    watch_everywhere(&kinds)
}

/// The kinds that the allocator of tunnel addresses watches.
pub fn tunnel_ip_syncer_kinds() -> (r: Vec<(ResourceKind, Option<String>)>)
    ensures
        r@ == everywhere(seq![ResourceKind::Node, ResourceKind::IpPool]),
{
    let kinds = [ResourceKind::Node, ResourceKind::IpPool];
    assert(kinds@ =~= seq![ResourceKind::Node, ResourceKind::IpPool]);
    watch_everywhere(&kinds)
}

/// The kinds that the reporter of node status watches.
pub fn node_status_syncer_kinds() -> (r: Vec<(ResourceKind, Option<String>)>)
    ensures
        r@ == everywhere(seq![ResourceKind::Node]),
{
    let kinds = [ResourceKind::Node];
    assert(kinds@ =~= seq![ResourceKind::Node]);
    watch_everywhere(&kinds)
}

/// The updates of a list of pairs.
pub open spec fn updates_v1(pairs: Seq<V1KVPairView>, update_type: UpdateType) -> Seq<
    SyncerV1EventView,
> {
    Seq::new(pairs.len(), |i: int| SyncerV1EventView::Update { kv: pairs[i], update_type })
}

/// The deletions of a list of keys.
pub open spec fn deletes_v1(keys: Seq<V1KeyView>) -> Seq<SyncerV1EventView> {
    Seq::new(keys.len(), |i: int| SyncerV1EventView::Delete { key: keys[i] })
}

/// What an event becomes, given what reading its specification came to.
pub open spec fn events_v1(
    ev: SyncerEventView,
    decoded: Result<DecodedSpecView, Seq<char>>,
) -> Seq<SyncerV1EventView> {
    match ev {
        SyncerEventView::Status(s) => seq![SyncerV1EventView::Status(s)],
        SyncerEventView::Update { key, spec: _, revision: _, update_type, labels: _ } => match key {
            KeyView::Resource { kind, namespace: _, name: _ } => match processed(
                kind,
                key,
                decoded,
            ) {
                Ok(pairs) => if update_type == UpdateType::Deleted {
                    deletes_v1(keys_of(pairs))
                } else {
                    updates_v1(pairs, update_type)
                },
                Err(_) => Seq::empty(),
            },
            _ => Seq::empty(),
        },
    }
}

/// What an event becomes, given what reading its specification came to. A status passes
/// unchanged. An update becomes an update of each pair that its resource becomes, a
/// deletion a deletion of each of their keys. What cannot be converted is skipped, so that
/// it does not hold up the rest.
pub fn to_v1_events(ev: &SyncerEvent, decoded: &Result<DecodedSpec, String>) -> (r: Vec<
    SyncerV1Event,
>)
    ensures
        r.deep_view() == events_v1(ev.deep_view(), decoded_view(*decoded)),
{
    let mut out: Vec<SyncerV1Event> = Vec::new();
    assert(out.deep_view() =~= Seq::<SyncerV1EventView>::empty());
    let (key, update_type) = match ev {
        SyncerEvent::Status(s) => {
            push_item(&mut out, SyncerV1Event::Status(*s));
            assert(out.deep_view() =~= events_v1(ev.deep_view(), decoded_view(*decoded)));
            return out;
        },
        SyncerEvent::Update { key, update_type, .. } => (key, *update_type),
    };
    let kind = match key {
        Key::Resource { kind, .. } => *kind,
        _ => return out,
    };
    match update_type {
        UpdateType::Deleted => {
            if let Ok(keys) = process_keys(kind, key, decoded) {
                let ghost kv = keys.deep_view();
                for i in 0..keys.len()
                    invariant
                        kv == keys.deep_view(),
                        out.deep_view() == deletes_v1(kv).take(i as int),
                {
                    assert(kv[i as int] == keys@[i as int].deep_view());
                    push_item(&mut out, SyncerV1Event::Delete { key: keys[i].clone() });
                    assert(out.deep_view() =~= deletes_v1(kv).take(i + 1));
                }
                assert(deletes_v1(kv).take(kv.len() as int) =~= deletes_v1(kv));
            }
        },
        _ => {
            if let Ok(pairs) = process(kind, key, decoded) {
                let ghost pv = pairs.deep_view();
                for i in 0..pairs.len()
                    invariant
                        pv == pairs.deep_view(),
                        out.deep_view() == updates_v1(pv, update_type).take(i as int),
                {
                    assert(pv[i as int] == pairs@[i as int].deep_view());
                    push_item(
                        &mut out,
                        SyncerV1Event::Update { kv: Box::new(pairs[i].clone()), update_type },
                    );
                    assert(out.deep_view() =~= updates_v1(pv, update_type).take(i + 1));
                }
                assert(updates_v1(pv, update_type).take(pv.len() as int) =~= updates_v1(
                    pv,
                    update_type,
                ));
            }
        },
    }
    assert(out.deep_view() =~= events_v1(ev.deep_view(), decoded_view(*decoded)));
    out
}

/// The deletion of a resource removes exactly the keys that its update delivered, be the
/// resource new or known, in the same order.
pub proof fn law_deletion_removes_what_update_delivered(
    key: KeyView,
    spec: serde_json::Value,
    revision: u64,
    labels: Seq<(Seq<char>, Seq<char>)>,
    decoded: Result<DecodedSpecView, Seq<char>>,
    update_type: UpdateType,
)
    requires
        update_type != UpdateType::Deleted,
    ensures
        ({
            let update = events_v1(
                SyncerEventView::Update {
                    key,
                    spec,
                    revision,
                    update_type,
                    labels,
                },
                decoded,
            );
            let delete = events_v1(
                SyncerEventView::Update {
                    key,
                    spec,
                    revision,
                    update_type: UpdateType::Deleted,
                    labels,
                },
                decoded,
            );
            &&& update.len() == delete.len()
            &&& forall|i: int|
                0 <= i < update.len() ==> (#[trigger] update[i] matches SyncerV1EventView::Update {
                    kv,
                    ..
                } && delete[i] == (SyncerV1EventView::Delete { key: kv.key }))
        }),
{
}

/// An update is passed on as what it says: each pair that the resource becomes is delivered
/// once, in order and with the update's own type, and a deletion deletes their keys. A status
/// is passed on as it is, and what cannot be converted is left out.
pub proof fn law_updates_are_passed_on(
    ev: SyncerEventView,
    decoded: Result<DecodedSpecView, Seq<char>>,
)
    ensures
        match ev {
            SyncerEventView::Status(s) => events_v1(ev, decoded) == seq![
                SyncerV1EventView::Status(s),
            ],
            SyncerEventView::Update { key, spec: _, revision: _, update_type, labels: _ } => match key {
                KeyView::Resource { kind, namespace: _, name: _ } => match processed(
                    kind,
                    key,
                    decoded,
                ) {
                    Ok(pairs) => {
                        &&& events_v1(ev, decoded).len() == pairs.len()
                        &&& forall|i: int|
                            0 <= i < pairs.len() ==> #[trigger] events_v1(ev, decoded)[i] == (if
                            update_type == UpdateType::Deleted {
                                SyncerV1EventView::Delete { key: pairs[i].key }
                            } else {
                                SyncerV1EventView::Update { kv: pairs[i], update_type }
                            })
                    },
                    Err(_) => events_v1(ev, decoded).len() == 0,
                },
                _ => events_v1(ev, decoded).len() == 0,
            },
        },
{
}

} // verus!
