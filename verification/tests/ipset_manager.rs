use calico::dataplane::{DataplaneError, Manager};
use calico::ipset_manager::{
    set_name_for, set_name_for_digest, set_type_decl, IpSetManager, TABLE_FAMILY, TABLE_NAME,
};
use calico::messages::{IpSetDeltaUpdate, IpSetKind, IpSetUpdate, ToDataplane};

#[derive(Default)]
struct SpyProgrammer {
    docs: Vec<String>,
    fail: bool,
}

impl SpyProgrammer {
    fn apply_document(&mut self, doc: &str) -> Result<(), String> {
        if self.fail {
            return Err("spy: injected failure".into());
        }
        self.docs.push(doc.to_owned());
        Ok(())
    }

    fn last(&self) -> String {
        self.docs.last().cloned().unwrap_or_default()
    }
}

fn complete(mgr: &mut IpSetManager, spy: &mut SpyProgrammer) -> Result<(), DataplaneError> {
    match mgr.render_delta_doc() {
        Some((doc, touched)) => {
            let outcome = spy.apply_document(&doc);
            mgr.complete_deferred_work(&touched, outcome)
        }
        None => Ok(()),
    }
}

fn update(id: &str, kind: IpSetKind, members: &[&str]) -> ToDataplane {
    ToDataplane::IpSetUpdate(IpSetUpdate {
        id: id.into(),
        kind,
        members: members.iter().map(|s| (*s).to_string()).collect(),
    })
}

fn delta(id: &str, added: &[&str], removed: &[&str]) -> ToDataplane {
    ToDataplane::IpSetDeltaUpdate(IpSetDeltaUpdate {
        id: id.into(),
        added_members: added.iter().map(|s| (*s).to_string()).collect(),
        removed_members: removed.iter().map(|s| (*s).to_string()).collect(),
    })
}

fn fixture() -> (IpSetManager, SpyProgrammer) {
    (IpSetManager::new(), SpyProgrammer::default())
}

#[test]
fn set_name_is_deterministic_nft_safe_and_id_only() {
    let a = set_name_for("s:selector-foo");
    assert_eq!(a, set_name_for("s:selector-foo"), "deterministic");
    assert_ne!(a, set_name_for("s:selector-bar"), "distinct ids differ");
    assert!(a.starts_with("cali40"));
    assert!(
        a.chars()
            .all(|c| c.is_ascii_alphanumeric() || c == '_' || c == '-'),
        "nft-safe identifier: {a}"
    );
}

#[test]
fn full_update_programs_add_set_and_elements_once() {
    let (mut mgr, mut spy) = fixture();

    mgr.on_update(&update("s1", IpSetKind::Ip, &["10.0.0.1", "10.0.0.2"]));
    assert_eq!(mgr.pending_additions("s1"), Some(2));
    assert!(spy.docs.is_empty(), "on_update must not touch the kernel");

    complete(&mut mgr, &mut spy).unwrap();
    let doc = spy.last();
    let name = set_name_for("s1");
    assert!(doc.contains(&format!("add table {TABLE_FAMILY} {TABLE_NAME}")));
    assert!(doc.contains(&format!("add set {TABLE_FAMILY} {TABLE_NAME} {name}")));
    assert!(doc.contains("type ipv4_addr"));
    assert!(doc.contains("10.0.0.1"));
    assert!(doc.contains("10.0.0.2"));
    assert_eq!(mgr.pending_count(), 0, "reconciled after apply");
}

#[test]
fn empty_desired_set_is_still_created_on_first_program() {
    let (mut mgr, mut spy) = fixture();

    // No members, yet the set is wanted.
    mgr.on_update(&update("empty1", IpSetKind::Ip, &[]));
    complete(&mut mgr, &mut spy).unwrap();

    let doc = spy.last();
    let name = set_name_for("empty1");
    assert!(
        doc.contains(&format!("add set {TABLE_FAMILY} {TABLE_NAME} {name}")),
        "empty-but-desired set must still emit `add set` (the container), doc: {doc:?}"
    );
    assert!(doc.contains("type ipv4_addr"), "type decl present: {doc:?}");

    spy.docs.clear();
    complete(&mut mgr, &mut spy).unwrap();
    assert!(
        spy.docs.is_empty(),
        "already-created empty set must not be reprogrammed"
    );
}

#[test]
fn ipset_manager_apply_twice_second_delta_is_empty() {
    let (mut mgr, mut spy) = fixture();

    mgr.on_update(&update("s1", IpSetKind::Ip, &["10.0.0.1"]));
    complete(&mut mgr, &mut spy).unwrap();
    assert_eq!(spy.docs.len(), 1);

    spy.docs.clear();
    complete(&mut mgr, &mut spy).unwrap();
    assert!(
        spy.docs.is_empty(),
        "idempotent re-apply must program nothing"
    );
}

#[test]
fn add_then_remove_same_member_nets_nothing() {
    let (mut mgr, mut spy) = fixture();

    mgr.on_update(&update("s1", IpSetKind::Ip, &[]));
    complete(&mut mgr, &mut spy).unwrap();
    spy.docs.clear();

    mgr.on_update(&delta("s1", &["10.0.0.9"], &[]));
    mgr.on_update(&delta("s1", &[], &["10.0.0.9"]));
    assert_eq!(mgr.pending_count(), 0, "add+remove cancels: empty delta");

    complete(&mut mgr, &mut spy).unwrap();
    assert!(spy.docs.is_empty(), "no-op nets no nft ops");
}

#[test]
fn delta_programs_only_the_diff() {
    let (mut mgr, mut spy) = fixture();

    mgr.on_update(&update("s1", IpSetKind::Ip, &["10.0.0.1", "10.0.0.2"]));
    complete(&mut mgr, &mut spy).unwrap();
    spy.docs.clear();

    mgr.on_update(&delta("s1", &["10.0.0.3"], &["10.0.0.1"]));
    assert_eq!(mgr.pending_additions("s1"), Some(1));
    assert_eq!(mgr.pending_removals("s1"), Some(1));

    complete(&mut mgr, &mut spy).unwrap();
    let doc = spy.last();
    let name = set_name_for("s1");
    assert!(doc.contains(&format!(
        "add element {TABLE_FAMILY} {TABLE_NAME} {name} {{ 10.0.0.3 }}"
    )));
    assert!(doc.contains(&format!(
        "delete element {TABLE_FAMILY} {TABLE_NAME} {name} {{ 10.0.0.1 }}"
    )));
    assert!(
        !doc.contains("10.0.0.2"),
        "in-sync member must not be reprogrammed"
    );
    assert_eq!(mgr.pending_count(), 0);
}

#[test]
fn remove_set_programs_delete_set_and_drops_tracker() {
    let (mut mgr, mut spy) = fixture();

    mgr.on_update(&update("s1", IpSetKind::Ip, &["10.0.0.1"]));
    complete(&mut mgr, &mut spy).unwrap();
    spy.docs.clear();

    mgr.on_update(&ToDataplane::IpSetRemove("s1".into()));
    assert_eq!(mgr.desired_len(), 0, "desired state dropped");
    assert_eq!(mgr.pending_count(), 1, "one set deletion pending");

    complete(&mut mgr, &mut spy).unwrap();
    let name = set_name_for("s1");
    assert!(spy
        .last()
        .contains(&format!("delete set {TABLE_FAMILY} {TABLE_NAME} {name}")));
    assert_eq!(mgr.pending_count(), 0);
}

#[test]
fn remove_before_first_apply_drops_silently_no_delete_set() {
    let (mut mgr, mut spy) = fixture();

    mgr.on_update(&update("s1", IpSetKind::Ip, &["10.0.0.1"]));
    mgr.on_update(&ToDataplane::IpSetRemove("s1".into()));

    assert_eq!(mgr.desired_len(), 0, "set gone from memory");
    assert_eq!(
        mgr.pending_count(),
        0,
        "a never-programmed set needs no kernel op at all"
    );

    complete(&mut mgr, &mut spy).unwrap();
    assert!(
        spy.docs.iter().all(|d| !d.contains("delete set")),
        "no delete set for a set that was never created in the kernel"
    );
    assert!(spy.docs.is_empty(), "nothing to program at all");
}

#[test]
fn remove_then_readd_before_apply_deletes_stale_members() {
    let (mut mgr, mut spy) = fixture();

    mgr.on_update(&update("s1", IpSetKind::Ip, &["10.0.0.1", "10.0.0.2"]));
    complete(&mut mgr, &mut spy).unwrap();
    spy.docs.clear();

    mgr.on_update(&ToDataplane::IpSetRemove("s1".into()));
    mgr.on_update(&update("s1", IpSetKind::Ip, &["10.0.0.1"]));

    assert_eq!(mgr.pending_additions("s1"), Some(0));
    assert_eq!(
        mgr.pending_removals("s1"),
        Some(1),
        ".2 must be deleted as stale"
    );

    complete(&mut mgr, &mut spy).unwrap();
    let doc = spy.last();
    let name = set_name_for("s1");
    assert!(
        doc.contains(&format!(
            "delete element {TABLE_FAMILY} {TABLE_NAME} {name} {{ 10.0.0.2 }}"
        )),
        "stale member .2 must be deleted, doc: {doc}"
    );
    assert!(
        !doc.contains("delete set"),
        "the resurrected set must not be dropped from the kernel, doc: {doc}"
    );
    assert_eq!(mgr.pending_count(), 0);
}

#[test]
fn net_kind_declares_interval_flag() {
    let (mut mgr, mut spy) = fixture();

    mgr.on_update(&update("net1", IpSetKind::Net, &["10.0.0.0/24"]));
    complete(&mut mgr, &mut spy).unwrap();
    let doc = spy.last();
    assert!(doc.contains("type ipv4_addr; flags interval"));
    assert!(doc.contains("10.0.0.0/24"));
}

#[test]
fn ip_and_port_declares_concatenated_type() {
    let (mut mgr, mut spy) = fixture();

    mgr.on_update(&update("p1", IpSetKind::IpAndPort, &["10.0.0.1 . 80"]));
    complete(&mut mgr, &mut spy).unwrap();
    assert!(spy.last().contains("type ipv4_addr . inet_service"));
}

#[test]
fn full_update_replaces_membership() {
    let (mut mgr, mut spy) = fixture();

    mgr.on_update(&update("s1", IpSetKind::Ip, &["10.0.0.1", "10.0.0.2"]));
    complete(&mut mgr, &mut spy).unwrap();
    spy.docs.clear();

    mgr.on_update(&update("s1", IpSetKind::Ip, &["10.0.0.2", "10.0.0.3"]));
    assert_eq!(mgr.pending_additions("s1"), Some(1));
    assert_eq!(mgr.pending_removals("s1"), Some(1));
    complete(&mut mgr, &mut spy).unwrap();
    let doc = spy.last();
    assert!(doc.contains("10.0.0.3"));
    assert!(doc.contains("delete element"));
}

#[test]
fn failed_apply_retains_state_for_retry() {
    let (mut mgr, mut spy) = fixture();

    mgr.on_update(&update("s1", IpSetKind::Ip, &["10.0.0.1"]));
    spy.fail = true;
    assert!(complete(&mut mgr, &mut spy).is_err());
    assert_eq!(mgr.pending_count(), 1, "state retained after failure");

    spy.fail = false;
    complete(&mut mgr, &mut spy).unwrap();
    assert!(spy.last().contains("10.0.0.1"));
    assert_eq!(mgr.pending_count(), 0);
}

#[test]
fn non_ipset_messages_are_ignored() {
    let (mut mgr, mut spy) = fixture();
    mgr.on_update(&ToDataplane::InSync);
    assert_eq!(mgr.desired_len(), 0);
    complete(&mut mgr, &mut spy).unwrap();
    assert!(spy.docs.is_empty());
}

#[test]
fn names_and_types_of_sets() {
    let digest: Vec<u8> = (0u8..32).collect();
    assert_eq!(set_name_for_digest(&digest), "cali40AAECAwQFBgcICQoL");
    assert_eq!(set_name_for("s1").len(), 22);
    assert_eq!(set_type_decl(IpSetKind::Ip), "type ipv4_addr");
    let (mgr, _) = fixture();
    assert_eq!(mgr.pending_additions("none"), None);
    assert_eq!(mgr.pending_removals("none"), None);
}

#[test]
fn a_failure_is_handed_on() {
    let (mut mgr, mut spy) = fixture();
    mgr.on_update(&update("s1", IpSetKind::Ip, &["10.0.0.1"]));
    spy.fail = true;
    assert_eq!(
        complete(&mut mgr, &mut spy),
        Err(DataplaneError::new("spy: injected failure"))
    );
}

#[test]
fn a_round_settles_or_is_repeated() {
    let (mut mgr, mut spy) = fixture();
    mgr.on_update(&update("s:gone", IpSetKind::Ip, &["10.0.0.9"]));
    complete(&mut mgr, &mut spy).unwrap();
    mgr.on_update(&ToDataplane::IpSetRemove("s:gone".into()));
    mgr.on_update(&update("s:empty", IpSetKind::Net, &[]));
    mgr.on_update(&update("s:web", IpSetKind::Ip, &["10.0.0.1", "10.0.0.2"]));
    assert_eq!(mgr.pending_count(), 3);

    let (doc, touched) = mgr.render_delta_doc().unwrap();
    assert_eq!(touched, ["s:empty", "s:web"]);
    assert!(mgr
        .complete_deferred_work(&touched, Err("no".to_string()))
        .is_err());
    assert_eq!(mgr.pending_count(), 3);
    assert_eq!(mgr.desired_len(), 2);
    assert_eq!(mgr.render_delta_doc(), Some((doc.clone(), touched.clone())));

    mgr.complete_deferred_work(&touched, Ok(())).unwrap();
    assert_eq!(mgr.pending_count(), 0);
    assert_eq!(mgr.desired_len(), 2);
    assert_eq!(mgr.render_delta_doc(), None);

    // Every line adds or deletes, and the only set deleted is the one that was programmed.
    assert!(doc
        .lines()
        .all(|l| l.starts_with("add ") || l.starts_with("delete ")));
    let deleted: Vec<&str> = doc.lines().filter(|l| l.starts_with("delete set ")).collect();
    assert_eq!(
        deleted,
        [format!("delete set inet calico {}", set_name_for("s:gone"))]
    );
    assert!(doc.contains(&format!(
        "add set inet calico {} {{ type ipv4_addr; flags interval; }}",
        set_name_for("s:empty")
    )));
}
