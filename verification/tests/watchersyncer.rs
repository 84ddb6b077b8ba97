use calico::cas::CasError;
use calico::model::{Key, ResourceKind};
use calico::ordmap::OrdMap;
use calico::syncer::{SyncStatus, SyncerEvent, UpdateType};
use calico::watchersyncer::combine;

fn status(s: SyncStatus) -> SyncerEvent {
    SyncerEvent::Status(s)
}

fn upd(name: &str, ut: UpdateType) -> SyncerEvent {
    SyncerEvent::Update {
        key: Key::Resource {
            kind: ResourceKind::IpPool,
            namespace: None,
            name: name.to_string(),
        },
        spec: serde_json::from_str("{}").unwrap(),
        revision: 1,
        update_type: ut,
        labels: OrdMap::new(),
    }
}

fn run(num_kinds: usize, events: Vec<(usize, SyncerEvent)>) -> Vec<SyncerEvent> {
    combine(num_kinds, events.into_iter().map(Ok).collect())
        .into_iter()
        .map(|r| r.expect("combine yields no errors on Ok inputs"))
        .collect()
}

fn count_status(out: &[SyncerEvent], s: SyncStatus) -> usize {
    out.iter().filter(|e| **e == SyncerEvent::Status(s)).count()
}

fn index_of(out: &[SyncerEvent], e: &SyncerEvent) -> usize {
    out.iter().position(|x| x == e).expect("event present")
}

#[test]
fn two_kinds_combined_status_and_ordering() {
    let (resync, insync) = (SyncStatus::ResyncInProgress, SyncStatus::InSync);
    let out = run(
        2,
        vec![
            (0, status(resync)),
            (0, upd("a1", UpdateType::New)),
            (1, status(resync)),
            (1, upd("b1", UpdateType::New)),
            (0, status(insync)),
            (0, upd("a2", UpdateType::New)),
            (1, status(insync)),
            (0, upd("a1", UpdateType::Updated)),
            (1, upd("b1", UpdateType::Deleted)),
        ],
    );

    assert_eq!(count_status(&out, resync), 1);
    assert_eq!(count_status(&out, insync), 1);
    assert_eq!(out[0], status(resync));

    let insync_at = index_of(&out, &status(insync));
    for name in ["a1", "b1", "a2"] {
        let at = index_of(&out, &upd(name, UpdateType::New));
        assert!(
            at < insync_at,
            "snapshot New {name} must precede combined InSync"
        );
    }
    assert!(index_of(&out, &upd("a1", UpdateType::Updated)) > insync_at);
    assert!(index_of(&out, &upd("b1", UpdateType::Deleted)) > insync_at);

    assert_eq!(
        out,
        vec![
            status(resync),
            upd("a1", UpdateType::New),
            upd("b1", UpdateType::New),
            upd("a2", UpdateType::New),
            status(insync),
            upd("a1", UpdateType::Updated),
            upd("b1", UpdateType::Deleted),
        ]
    );
}

#[test]
fn combined_insync_waits_for_every_kind() {
    let out = run(
        2,
        vec![
            (0, upd("a", UpdateType::New)),
            (0, status(SyncStatus::InSync)),
            (1, upd("b", UpdateType::New)),
            (1, status(SyncStatus::InSync)),
        ],
    );
    assert_eq!(
        out,
        vec![
            status(SyncStatus::ResyncInProgress),
            upd("a", UpdateType::New),
            upd("b", UpdateType::New),
            status(SyncStatus::InSync),
        ]
    );
}

#[test]
fn post_insync_relist_does_not_reset_combined_status() {
    let (resync, insync) = (SyncStatus::ResyncInProgress, SyncStatus::InSync);
    let out = run(
        1,
        vec![
            (0, upd("a", UpdateType::New)),
            (0, status(insync)),
            (0, upd("a", UpdateType::Updated)),
            (0, status(resync)),
            (0, upd("a", UpdateType::New)),
            (0, status(insync)),
            (0, upd("a", UpdateType::Updated)),
        ],
    );

    assert_eq!(count_status(&out, resync), 1);
    assert_eq!(count_status(&out, insync), 1);
    let insync_at = index_of(&out, &status(insync));
    let relist_items: Vec<usize> = out
        .iter()
        .enumerate()
        .filter(|(_, e)| **e == upd("a", UpdateType::New))
        .map(|(i, _)| i)
        .collect();
    assert_eq!(
        relist_items.len(),
        2,
        "both the initial and re-list New surface"
    );
    assert!(
        relist_items[1] > insync_at,
        "re-list New arrives after combined InSync"
    );

    assert_eq!(
        out,
        vec![
            status(resync),
            upd("a", UpdateType::New),
            status(insync),
            upd("a", UpdateType::Updated),
            upd("a", UpdateType::New),
            upd("a", UpdateType::Updated),
        ]
    );
}

#[test]
fn empty_kinds_is_vacuously_in_sync() {
    let out = run(0, vec![]);
    assert_eq!(
        out,
        vec![
            status(SyncStatus::ResyncInProgress),
            status(SyncStatus::InSync)
        ]
    );
}

#[test]
fn failures_are_handed_on_in_their_place() {
    let out = combine(
        1,
        vec![
            Ok((0, upd("a", UpdateType::New))),
            Err(CasError::NotFound),
            Ok((0, status(SyncStatus::WaitForDatastore))),
            Ok((0, status(SyncStatus::InSync))),
        ],
    );
    assert_eq!(
        out,
        vec![
            Ok(status(SyncStatus::ResyncInProgress)),
            Ok(upd("a", UpdateType::New)),
            Err(CasError::NotFound),
            Ok(status(SyncStatus::InSync)),
        ]
    );
}
