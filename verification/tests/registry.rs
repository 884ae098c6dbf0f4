use node_discovery::registry::{NodeManager, RegistryError, UpsertOutcome};
use node_discovery::Ipv4;

fn mgr() -> NodeManager {
    NodeManager::new(
        Ipv4 { a: 192, b: 168, c: 1, d: 2 },
        5000,
        String::from("local-node"),
    )
}

fn peer_ip(d: u8) -> Ipv4 {
    Ipv4 { a: 10, b: 0, c: 0, d }
}

#[test]
fn upsert_inserts_once_then_refreshes() {
    let mut m = mgr();
    let first = m.add_or_update_node(String::from("peer-a"), peer_ip(1), 4000, 100);
    assert_eq!(first, UpsertOutcome::Inserted);
    let second = m.add_or_update_node(String::from("peer-a"), peer_ip(1), 4000, 200);
    assert_eq!(second, UpsertOutcome::Refreshed);
    let third = m.add_or_update_node(String::from("peer-a"), peer_ip(1), 4000, 300);
    assert_eq!(third, UpsertOutcome::Refreshed);
    assert_eq!(m.count(), 1);
    let info = m.lookup(&String::from("peer-a")).unwrap();
    assert_eq!(info.last_active, 300);
}

#[test]
fn refresh_updates_address_and_keeps_alias() {
    let mut m = mgr();
    m.add_or_update_node(String::from("peer-a"), peer_ip(1), 4000, 100);
    m.update_node_alias(&String::from("peer-a"), String::from("pal"))
        .unwrap();
    m.add_or_update_node(String::from("peer-a"), peer_ip(9), 4999, 200);
    let info = m.lookup(&String::from("peer-a")).unwrap();
    assert_eq!(info.ip, peer_ip(9));
    assert_eq!(info.port, 4999);
    assert_eq!(info.last_active, 200);
    assert_eq!(info.alias, Some(String::from("pal")));
}

#[test]
fn refresh_never_moves_last_active_backwards() {
    let mut m = mgr();
    m.add_or_update_node(String::from("peer-a"), peer_ip(1), 4000, 500);
    m.add_or_update_node(String::from("peer-a"), peer_ip(1), 4000, 400);
    let info = m.lookup(&String::from("peer-a")).unwrap();
    assert_eq!(info.last_active, 500);
}

#[test]
fn alias_conflict_rejected_and_holder_unaffected() {
    let mut m = mgr();
    m.add_or_update_node(String::from("peer-a"), peer_ip(1), 4000, 100);
    m.add_or_update_node(String::from("peer-b"), peer_ip(2), 4001, 100);
    assert_eq!(
        m.update_node_alias(&String::from("peer-a"), String::from("pal")),
        Ok(())
    );
    assert_eq!(
        m.update_node_alias(&String::from("peer-b"), String::from("pal")),
        Err(RegistryError::AliasConflict)
    );
    let holder = m.lookup(&String::from("peer-a")).unwrap();
    assert_eq!(holder.alias, Some(String::from("pal")));
    let other = m.lookup(&String::from("peer-b")).unwrap();
    assert_eq!(other.alias, None);
}

#[test]
fn alias_for_unknown_identity_is_not_found() {
    let mut m = mgr();
    assert_eq!(
        m.update_node_alias(&String::from("ghost"), String::from("pal")),
        Err(RegistryError::NotFound)
    );
}

#[test]
fn alias_can_be_changed_and_reused_after_change() {
    let mut m = mgr();
    m.add_or_update_node(String::from("peer-a"), peer_ip(1), 4000, 100);
    m.add_or_update_node(String::from("peer-b"), peer_ip(2), 4001, 100);
    m.update_node_alias(&String::from("peer-a"), String::from("pal"))
        .unwrap();
    m.update_node_alias(&String::from("peer-a"), String::from("mate"))
        .unwrap();
    assert_eq!(
        m.update_node_alias(&String::from("peer-b"), String::from("pal")),
        Ok(())
    );
}

#[test]
fn resolve_prefers_alias_then_identity() {
    let mut m = mgr();
    m.add_or_update_node(String::from("peer-a"), peer_ip(1), 4000, 100);
    m.add_or_update_node(String::from("peer-b"), peer_ip(2), 4001, 100);
    m.update_node_alias(&String::from("peer-a"), String::from("pal"))
        .unwrap();
    let by_alias = m.get_node_info(&String::from("pal")).unwrap();
    assert_eq!(by_alias.ip, peer_ip(1));
    let by_key = m.get_node_info(&String::from("peer-b")).unwrap();
    assert_eq!(by_key.ip, peer_ip(2));
    assert!(m.get_node_info(&String::from("nobody")).is_none());
}

#[test]
fn remove_node_deletes_exactly_that_record() {
    let mut m = mgr();
    m.add_or_update_node(String::from("peer-a"), peer_ip(1), 4000, 100);
    m.add_or_update_node(String::from("peer-b"), peer_ip(2), 4001, 100);
    assert_eq!(m.remove_node(&String::from("peer-a")), Ok(()));
    assert_eq!(
        m.remove_node(&String::from("peer-a")),
        Err(RegistryError::NotFound)
    );
    assert_eq!(m.count(), 1);
    assert!(m.lookup(&String::from("peer-b")).is_some());
}

#[test]
fn expiry_at_twenty_second_threshold() {
    // Threshold 20s: one peer last seen 21s ago, one 19s ago.
    let mut m = mgr();
    let now: u64 = 30_000;
    m.add_or_update_node(String::from("stale"), peer_ip(1), 4000, now - 21_000);
    m.add_or_update_node(String::from("fresh"), peer_ip(2), 4001, now - 19_000);
    let removed = m.sweep_expired(now, 20_000);
    assert_eq!(removed, vec![String::from("stale")]);
    assert_eq!(m.count(), 1);
    assert!(m.lookup(&String::from("fresh")).is_some());
    assert!(m.lookup(&String::from("stale")).is_none());
}

#[test]
fn expiry_boundary_is_strict() {
    // Exactly at the threshold the record is retained.
    let mut m = mgr();
    m.add_or_update_node(String::from("edge"), peer_ip(1), 4000, 10_000);
    let removed = m.sweep_expired(30_000, 20_000);
    assert!(removed.is_empty());
    let removed = m.sweep_expired(30_001, 20_000);
    assert_eq!(removed, vec![String::from("edge")]);
}

#[test]
fn departure_notice_fires_exactly_once_per_removed_peer() {
    let mut m = mgr();
    m.add_or_update_node(String::from("stale"), peer_ip(1), 4000, 0);
    m.add_or_update_node(String::from("fresh"), peer_ip(2), 4001, 25_000);
    let notices = m.check_and_notify_offline_nodes(30_000, 20_000);
    assert_eq!(notices, vec![String::from("Node stale went offline!")]);
    let notices = m.check_and_notify_offline_nodes(30_000, 20_000);
    assert!(notices.is_empty());
}

#[test]
fn hundred_upserts_then_sweep_keeps_all() {
    let mut m = mgr();
    for i in 0..100u32 {
        let outcome = m.add_or_update_node(format!("peer-{}", i), peer_ip(1), 4000, 1_000);
        assert_eq!(outcome, UpsertOutcome::Inserted);
    }
    let removed = m.sweep_expired(2_000, 20_000);
    assert!(removed.is_empty());
    assert_eq!(m.count(), 100);
    assert_eq!(m.list_users().len(), 100);
}

#[test]
fn hundred_concurrent_upserts_no_lost_updates() {
    let rt = tokio::runtime::Builder::new_multi_thread()
        .worker_threads(4)
        .build()
        .unwrap();
    rt.block_on(async {
        let shared = std::sync::Arc::new(tokio::sync::Mutex::new(mgr()));
        let mut handles = Vec::new();
        for i in 0..100u32 {
            let shared = std::sync::Arc::clone(&shared);
            handles.push(tokio::spawn(async move {
                let mut m = shared.lock().await;
                m.add_or_update_node(format!("peer-{}", i), peer_ip(1), 4000, 1_000);
            }));
        }
        for h in handles {
            h.await.unwrap();
        }
        let mut m = shared.lock().await;
        let removed = m.sweep_expired(1_500, 20_000);
        assert!(removed.is_empty());
        assert_eq!(m.count(), 100);
    });
}

#[test]
fn list_users_snapshots_every_entry_once() {
    let mut m = mgr();
    m.add_or_update_node(String::from("peer-a"), peer_ip(1), 4000, 100);
    m.add_or_update_node(String::from("peer-b"), peer_ip(2), 4001, 150);
    let mut listed = m.list_users();
    listed.sort_by(|x, y| x.0.cmp(&y.0));
    assert_eq!(listed.len(), 2);
    assert_eq!(listed[0].0, "peer-a");
    assert_eq!(listed[0].1.port, 4000);
    assert_eq!(listed[1].0, "peer-b");
    assert_eq!(listed[1].1.last_active, 150);
}

#[test]
fn node_info_new_starts_without_alias() {
    let info = node_discovery::registry::NodeInfo::new(peer_ip(3), 4321, 777);
    assert_eq!(info.ip, peer_ip(3));
    assert_eq!(info.port, 4321);
    assert_eq!(info.last_active, 777);
    assert_eq!(info.alias, None);
}

#[test]
fn alias_uniqueness_is_queryable() {
    let mut m = mgr();
    m.add_or_update_node(String::from("peer-a"), peer_ip(1), 4000, 100);
    assert!(m.is_alias_unique(&String::from("pal")));
    m.update_node_alias(&String::from("peer-a"), String::from("pal"))
        .unwrap();
    assert!(!m.is_alias_unique(&String::from("pal")));
    assert!(m.is_alias_unique(&String::from("other")));
}
