use node_discovery::codec::{decode_message, encode_message, Message};
use node_discovery::Ipv4;

fn sample() -> Message {
    Message {
        ip: Ipv4 { a: 192, b: 168, c: 0, d: 7 },
        port: 34567,
        name: String::from("node-one"),
        content: String::from("hello there"),
    }
}

#[test]
fn encode_produces_the_exact_wire_text() {
    let text = encode_message(&sample());
    assert_eq!(
        text,
        "{\"ip\":\"192.168.0.7\",\"port\":34567,\"name\":\"node-one\",\"content\":\"hello there\"}"
    );
}

#[test]
fn decode_reads_back_what_encode_wrote() {
    let m = sample();
    let text = encode_message(&m);
    let back = decode_message(&text).unwrap();
    assert_eq!(back.ip, m.ip);
    assert_eq!(back.port, m.port);
    assert_eq!(back.name, m.name);
    assert_eq!(back.content, m.content);
}

#[test]
fn round_trip_with_escapes_and_controls() {
    let m = Message {
        ip: Ipv4 { a: 0, b: 0, c: 0, d: 0 },
        port: 0,
        name: String::from("a\"b\\c"),
        content: String::from("line\nbreak\ttab\rret \u{1} low"),
    };
    let text = encode_message(&m);
    let back = decode_message(&text).unwrap();
    assert_eq!(back.name, m.name);
    assert_eq!(back.content, m.content);
}

#[test]
fn round_trip_keeps_non_ascii_text() {
    let m = Message {
        ip: Ipv4 { a: 10, b: 1, c: 2, d: 3 },
        port: 65535,
        name: String::from("n\u{f6}de"),
        content: String::from("caf\u{e9} \u{2764}"),
    };
    let text = encode_message(&m);
    let back = decode_message(&text).unwrap();
    assert_eq!(back.name, m.name);
    assert_eq!(back.content, m.content);
}

#[test]
fn decode_accepts_any_field_order_and_whitespace() {
    let text = " { \"port\" : 8080 , \"content\" : \"x\" , \"ip\" : \"1.2.3.4\" , \"name\" : \"n\" } ";
    let m = decode_message(text).unwrap();
    assert_eq!(m.ip, Ipv4 { a: 1, b: 2, c: 3, d: 4 });
    assert_eq!(m.port, 8080);
    assert_eq!(m.name, "n");
    assert_eq!(m.content, "x");
}

#[test]
fn decode_ignores_unknown_fields_flat_and_nested() {
    let text = "{\"ip\":\"1.2.3.4\",\"extra\":123,\"flag\":true,\"gone\":null,\
                \"nested\":{\"a\":[1,2,{\"b\":\"}]\"}]},\"port\":1,\"name\":\"n\",\"content\":\"c\"}";
    let m = decode_message(text).unwrap();
    assert_eq!(m.port, 1);
    assert_eq!(m.name, "n");
}

#[test]
fn decode_accepts_short_and_hex_escapes() {
    let text = "{\"ip\":\"1.2.3.4\",\"port\":1,\"name\":\"a\\/b\\u0041\",\"content\":\"\\n\\t\\b\\f\\r\"}";
    let m = decode_message(text).unwrap();
    assert_eq!(m.name, "a/bA");
    assert_eq!(m.content, "\n\t\u{8}\u{c}\r");
}

#[test]
fn malformed_inputs_decode_to_nothing() {
    // Not the wire shape at all.
    assert!(decode_message("not json").is_none());
    assert!(decode_message("").is_none());
    assert!(decode_message("\u{0}\u{1}\u{2}").is_none());
    // Truncated message.
    assert!(decode_message("{\"ip\":\"1.2.3.4\",\"port\":1,\"na").is_none());
    // Missing the identity field.
    assert!(decode_message("{\"ip\":\"1.2.3.4\",\"port\":1,\"content\":\"c\"}").is_none());
    // Missing other required fields.
    assert!(decode_message("{\"port\":1,\"name\":\"n\",\"content\":\"c\"}").is_none());
    assert!(decode_message("{}").is_none());
    // Trailing garbage after the object.
    assert!(decode_message("{\"ip\":\"1.2.3.4\",\"port\":1,\"name\":\"n\",\"content\":\"c\"}x").is_none());
    // A repeated field.
    assert!(decode_message("{\"name\":\"a\",\"name\":\"b\",\"ip\":\"1.2.3.4\",\"port\":1,\"content\":\"c\"}").is_none());
}

#[test]
fn bad_values_decode_to_nothing() {
    // Port out of range, negative, or not a number.
    assert!(decode_message("{\"ip\":\"1.2.3.4\",\"port\":65536,\"name\":\"n\",\"content\":\"c\"}").is_none());
    assert!(decode_message("{\"ip\":\"1.2.3.4\",\"port\":-1,\"name\":\"n\",\"content\":\"c\"}").is_none());
    assert!(decode_message("{\"ip\":\"1.2.3.4\",\"port\":\"1\",\"name\":\"n\",\"content\":\"c\"}").is_none());
    assert!(decode_message("{\"ip\":\"1.2.3.4\",\"port\":007,\"name\":\"n\",\"content\":\"c\"}").is_none());
    // Broken addresses.
    assert!(decode_message("{\"ip\":\"1.2.3\",\"port\":1,\"name\":\"n\",\"content\":\"c\"}").is_none());
    assert!(decode_message("{\"ip\":\"1.2.3.256\",\"port\":1,\"name\":\"n\",\"content\":\"c\"}").is_none());
    assert!(decode_message("{\"ip\":\"1.2.3.04\",\"port\":1,\"name\":\"n\",\"content\":\"c\"}").is_none());
    assert!(decode_message("{\"ip\":42,\"port\":1,\"name\":\"n\",\"content\":\"c\"}").is_none());
}

#[test]
fn decode_matches_serde_style_output() {
    // The exact shape a standard JSON serializer emits for an announcement.
    let text = "{\"ip\":\"127.0.0.1\",\"port\":3000,\"name\":\"abc-def\",\"content\":\"Node is online\"}";
    let m = decode_message(text).unwrap();
    assert_eq!(m.ip, Ipv4 { a: 127, b: 0, c: 0, d: 1 });
    assert_eq!(m.port, 3000);
    assert_eq!(m.name, "abc-def");
    assert_eq!(m.content, "Node is online");
}
