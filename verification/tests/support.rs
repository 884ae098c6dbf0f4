use node_discovery::addr::effective_ip;
use node_discovery::cli::{parse_command, tokenize, Commands};
use node_discovery::identity::fresh_identity;
use node_discovery::notify::NotificationQueue;
use node_discovery::Ipv4;

#[test]
fn wildcard_address_becomes_loopback() {
    let any = Ipv4 { a: 0, b: 0, c: 0, d: 0 };
    assert_eq!(effective_ip(any), Ipv4 { a: 127, b: 0, c: 0, d: 1 });
    let real = Ipv4 { a: 10, b: 1, c: 2, d: 3 };
    assert_eq!(effective_ip(real), real);
}

#[test]
fn fresh_identities_look_like_tokens() {
    let one = fresh_identity();
    let two = fresh_identity();
    assert_eq!(one.len(), 36);
    assert_eq!(two.len(), 36);
    assert_ne!(one, two);
}

#[test]
fn queue_keeps_order_and_drops_oldest_when_full() {
    let mut q = NotificationQueue::new(2);
    assert_eq!(q.len(), 0);
    q.push(String::from("first"));
    q.push(String::from("second"));
    q.push(String::from("third"));
    assert_eq!(q.len(), 2);
    assert_eq!(q.pop(), Some(String::from("second")));
    assert_eq!(q.pop(), Some(String::from("third")));
    assert_eq!(q.pop(), None);
}

#[test]
fn tokenizer_splits_on_whitespace_runs() {
    let words = tokenize("  send_message   bob\t hi\n");
    assert_eq!(
        words,
        vec![
            String::from("send_message"),
            String::from("bob"),
            String::from("hi")
        ]
    );
    assert!(tokenize("   \t ").is_empty());
}

#[test]
fn commands_parse_like_the_terminal() {
    assert!(matches!(parse_command("list_users"), Some(Commands::List)));
    assert!(matches!(
        parse_command("list_users and more"),
        Some(Commands::List)
    ));
    match parse_command("send_message bob hello") {
        Some(Commands::Send {
            identifier,
            message,
        }) => {
            assert_eq!(identifier, "bob");
            assert_eq!(message, "hello");
        }
        other => panic!("unexpected parse: {:?}", other.is_some()),
    }
    match parse_command("update_alias abc pal") {
        Some(Commands::Update { uuid, alias }) => {
            assert_eq!(uuid, "abc");
            assert_eq!(alias, "pal");
        }
        other => panic!("unexpected parse: {:?}", other.is_some()),
    }
    assert!(parse_command("").is_none());
    assert!(parse_command("send_message bob").is_none());
    assert!(parse_command("update_alias abc").is_none());
    assert!(parse_command("frobnicate x y").is_none());
}
