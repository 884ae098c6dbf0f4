use node_discovery::codec::{decode_message, encode_message, Message};
use node_discovery::listener::{arrival_notification, departure_notification};
use node_discovery::registry::NodeManager;
use node_discovery::Ipv4;

fn node(uuid: &str) -> NodeManager {
    NodeManager::new(
        Ipv4 { a: 192, b: 168, c: 1, d: 2 },
        5000,
        String::from(uuid),
    )
}

fn announcement(name: &str, ip: Ipv4, port: u16) -> String {
    encode_message(&Message {
        ip,
        port,
        name: String::from(name),
        content: String::from("node online"),
    })
}

#[test]
fn self_announcements_are_never_inserted() {
    let mut b = node("node-b");
    let own = announcement("node-b", Ipv4 { a: 10, b: 0, c: 0, d: 1 }, 4000);
    let notice = b.monitor_step(&own, 100, 0);
    assert!(notice.is_none());
    assert_eq!(b.count(), 0);
    assert!(b.lookup(&String::from("node-b")).is_none());
}

#[test]
fn grace_period_records_silently_then_notifies() {
    let mut b = node("node-b");
    let grace_end: u64 = 5_000;
    // Within the first five seconds: recorded, no notice.
    let early = announcement("node-early", Ipv4 { a: 10, b: 0, c: 0, d: 1 }, 4000);
    let notice = b.monitor_step(&early, 1_000, grace_end);
    assert!(notice.is_none());
    assert!(b.lookup(&String::from("node-early")).is_some());
    // At six seconds, a never-before-seen identity does notify.
    let late = announcement("node-late", Ipv4 { a: 10, b: 0, c: 0, d: 2 }, 4001);
    let notice = b.monitor_step(&late, 6_000, grace_end);
    assert_eq!(notice, Some(String::from("Node node-late came online!")));
    // A refresh after the grace period still produces no notice.
    let notice = b.monitor_step(&late, 7_000, grace_end);
    assert!(notice.is_none());
    // The silently recorded peer expires like any other.
    let removed = b.sweep_expired(1_000 + 21_000, 20_000);
    assert_eq!(removed, vec![String::from("node-early")]);
}

#[test]
fn malformed_datagrams_change_nothing() {
    let mut b = node("node-b");
    for bad in [
        "",
        "garbage",
        "{\"ip\":\"1.2.3.4\",\"port\":1,\"na",
        "{\"ip\":\"1.2.3.4\",\"port\":1,\"content\":\"c\"}",
    ] {
        assert!(b.monitor_step(bad, 100, 0).is_none());
        assert!(b.process_message(bad, 100).is_none());
    }
    assert_eq!(b.count(), 0);
}

#[test]
fn end_to_end_announcer_to_listener() {
    // A announces; B hears it within one interval.
    let a_ip = Ipv4 { a: 10, b: 0, c: 0, d: 7 };
    let a = NodeManager::new(a_ip, 4100, String::from("A"));
    let mut a = a;
    let mut b = node("B");
    let datagram = a.build_announcement();
    let notice = b.monitor_step(&datagram, 6_000, 5_000);
    assert_eq!(notice, Some(String::from("Node A came online!")));
    let seen = b.lookup(&String::from("A")).unwrap();
    assert_eq!(seen.ip, a_ip);
    assert_eq!(seen.port, 4100);
    // A hears its own announcement and never registers itself.
    let own = a.build_announcement();
    assert!(a.monitor_step(&own, 6_000, 5_000).is_none());
    assert!(a.lookup(&String::from("A")).is_none());
    assert_eq!(a.count(), 0);
}

#[test]
fn announcement_text_is_decodable_and_self_describing() {
    let a = node("node-a");
    let text = a.build_announcement();
    let m = decode_message(&text).unwrap();
    assert_eq!(m.name, "node-a");
    assert_eq!(m.ip, Ipv4 { a: 192, b: 168, c: 1, d: 2 });
    assert_eq!(m.port, 5000);
    assert_eq!(m.content, "Node is online at 192.168.1.2:5000");
}

#[test]
fn process_message_registers_the_sender() {
    let mut b = node("node-b");
    let text = encode_message(&Message {
        ip: Ipv4 { a: 10, b: 0, c: 0, d: 9 },
        port: 4500,
        name: String::from("node-c"),
        content: String::from("direct hello"),
    });
    let m = b.process_message(&text, 250).unwrap();
    assert_eq!(m.content, "direct hello");
    let info = b.lookup(&String::from("node-c")).unwrap();
    assert_eq!(info.port, 4500);
    assert_eq!(info.last_active, 250);
}

#[test]
fn prepare_send_targets_the_known_peer() {
    let mut b = node("node-b");
    b.add_or_update_node(
        String::from("node-c"),
        Ipv4 { a: 10, b: 0, c: 0, d: 9 },
        4500,
        100,
    );
    let (ip, port, payload) = b
        .prepare_send(&String::from("node-c"), &String::from("hi"))
        .unwrap();
    assert_eq!(ip, Ipv4 { a: 10, b: 0, c: 0, d: 9 });
    assert_eq!(port, 4500);
    let m = decode_message(&payload).unwrap();
    assert_eq!(m.name, "node-b");
    assert_eq!(m.content, "hi");
    assert_eq!(m.port, 5000);
    assert!(b
        .prepare_send(&String::from("ghost"), &String::from("hi"))
        .is_err());
}

#[test]
fn notification_texts_are_exact() {
    assert_eq!(
        arrival_notification(&String::from("x")),
        "Node x came online!"
    );
    assert_eq!(
        departure_notification(&String::from("x")),
        "Node x went offline!"
    );
}
