//! Behaviour of the stored value types and the wire conversions.

use rmemstore::client::ConnectionConfiguration;
use rmemstore::messages;
use rmemstore::signal::Signal;
use rmemstore::types::MemstoreValue;
use rmemstore::types::ValueError;

fn wire_blob(bytes: &[u8]) -> messages::Value {
    messages::Value { kind: Some(messages::value::Kind::Blob(bytes.to_vec())) }
}

fn wire_text(s: &str) -> messages::Value {
    messages::Value { kind: Some(messages::value::Kind::Text(s.to_string())) }
}

fn wire_table(entries: Vec<(String, messages::Value)>) -> messages::Value {
    messages::Value {
        kind: Some(messages::value::Kind::Table(messages::ValueMap { map: entries })),
    }
}

#[test]
fn sizes_are_exact() {
    assert_eq!(MemstoreValue::Blob { value: vec![9, 9, 9] }.size(), 3);
    assert_eq!(MemstoreValue::Text { value: "hello".to_string() }.size(), 5);
    // Non-ASCII text is priced by its encoded bytes, not its characters.
    assert_eq!(MemstoreValue::Text { value: "\u{e9}\u{e9}".to_string() }.size(), 4);
    let table = MemstoreValue::Table {
        map: vec![
            ("ab".to_string(), MemstoreValue::Blob { value: vec![1, 2, 3] }),
            ("c".to_string(), MemstoreValue::Text { value: "xy".to_string() }),
        ],
    };
    // 2 + 3 for the first entry, 1 + 2 for the second.
    assert_eq!(table.size(), 8);
    let empty_table = MemstoreValue::Table { map: Vec::new() };
    assert_eq!(empty_table.size(), 0);
}

#[test]
fn decoding_accepts_well_formed_values() {
    let value = MemstoreValue::try_from(wire_blob(b"abc")).unwrap();
    assert_eq!(value, MemstoreValue::Blob { value: b"abc".to_vec() });
    let value = MemstoreValue::try_from(wire_text("hi")).unwrap();
    assert_eq!(value, MemstoreValue::Text { value: "hi".to_string() });
    let value = MemstoreValue::try_from(wire_table(vec![
        ("inner".to_string(), wire_text("v")),
    ]))
    .unwrap();
    assert_eq!(
        value,
        MemstoreValue::Table {
            map: vec![("inner".to_string(), MemstoreValue::Text { value: "v".to_string() })],
        }
    );
}

#[test]
fn decoding_rejects_missing_kinds() {
    let err = MemstoreValue::try_from(messages::Value { kind: None }).unwrap_err();
    assert_eq!(err, ValueError::MissingAttribute("Value kind"));
    // A missing kind nested inside a table is rejected too.
    let nested = wire_table(vec![
        ("ok".to_string(), wire_blob(b"x")),
        ("bad".to_string(), messages::Value { kind: None }),
    ]);
    let err = MemstoreValue::try_from(nested).unwrap_err();
    assert_eq!(err, ValueError::MissingAttribute("Value kind"));
}

#[test]
fn encoding_round_trips() {
    let stored = MemstoreValue::Table {
        map: vec![
            ("blob".to_string(), MemstoreValue::Blob { value: vec![0, 1] }),
            ("text".to_string(), MemstoreValue::Text { value: "t".to_string() }),
            (
                "nested".to_string(),
                MemstoreValue::Table {
                    map: vec![("k".to_string(), MemstoreValue::Blob { value: vec![7] })],
                },
            ),
        ],
    };
    let clone = stored.clone();
    let wire = messages::Value::from(stored);
    let decoded = MemstoreValue::try_from(wire).unwrap();
    assert_eq!(decoded, clone);
}

#[test]
fn connection_configuration_defaults_and_setters() {
    let mut configuration = ConnectionConfiguration::default();
    configuration.max_message_size(32 * (1 << 20));
    configuration.queued_messages(64);
    let cloned = configuration.clone();
    drop(cloned);
}

#[test]
fn signal_names() {
    assert_eq!(Signal::Sigint.name(), "sigint");
    assert_eq!(Signal::Sigterm.name(), "sigterm");
    assert_eq!(Signal::Sighup.name(), "sighup");
    assert_eq!(Signal::Sigabrt.name(), "sigabrt");
    assert_eq!(Signal::Sigquit.name(), "sigquit");
}
