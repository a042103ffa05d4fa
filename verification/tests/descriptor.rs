use scheme_handler::{descriptor_path, register, unregister, DesktopEntry, ParseError, ProtocolHandler};

#[test]
fn test_invalid_entry() {
    let content: String = "[Not Desktop Entry]".to_string();
    assert!(DesktopEntry::try_from(&content).is_err(), "Not a desktop entry")
}

#[test]
fn test_invalid_fields() {
    let content: String = "[Desktop Entry]\nnotvalid".to_string();
    assert!(DesktopEntry::try_from(&content).is_err(), "Invalid field format")
}

#[test]
fn test_valid() {
    let content: String = "[Desktop Entry]\nfield1=val1\nfield2=val2".to_string();
    let de = DesktopEntry::try_from(&content);
    assert!(de.is_ok());

    let de = de.unwrap();
    assert!(de.contains_key("field1"));
    assert!(de.contains_key("field2"));
}

#[test]
fn test_to_string() {
    let mut de = DesktopEntry::new();
    de.insert_field("field1".to_string(), "val1".to_string());
    de.insert_field("field2".to_string(), "val2".to_string());
    assert_eq!(de.to_string(), "[Desktop Entry]\nfield1=val1\nfield2=val2")
}

#[test]
fn test_insert_scheme_handler() {
    let content: String = "[Desktop Entry]\nfield1=val1\nfield2=val2".to_string();
    let mut de = DesktopEntry::try_from(&content).unwrap();
    de.insert_scheme_handler("x-scheme-handler/app".to_string());
    assert_eq!(
        de.get("MimeType"),
        Some(&"x-scheme-handler/app".to_string())
    );
}

#[test]
fn test_insert_scheme_handler_has_mime_type() {
    let content: String =
        "[Desktop Entry]\nfield1=val1\nfield2=val2\nMimeType=application/cdf".to_string();
    let mut de = DesktopEntry::try_from(&content).unwrap();
    de.insert_scheme_handler("x-scheme-handler/app".to_string());
    assert_eq!(
        de.get("MimeType"),
        Some(&"application/cdf;x-scheme-handler/app".to_string())
    );
}

#[test]
fn test_insert_scheme_handler_replace() {
    let content: String =
        "[Desktop Entry]\nfield1=val1\nfield2=val2\nMimeType=x-scheme-handler/app".to_string();
    let mut de = DesktopEntry::try_from(&content).unwrap();
    de.insert_scheme_handler("x-scheme-handler/app2".to_string());
    assert_eq!(
        de.get("MimeType"),
        Some(&"x-scheme-handler/app2".to_string())
    );
}

#[test]
fn test_delete_scheme_handler_full() {
    let content: String =
        "[Desktop Entry]\nfield1=val1\nfield2=val2\nMimeType=x-scheme-handler/app".to_string();
    let mut de = DesktopEntry::try_from(&content).unwrap();
    de.delete_scheme_handler();
    assert!(!de.contains_key("MimeType"));
}

#[test]
fn test_delete_scheme_handler_partial() {
    let content: String =
        "[Desktop Entry]\nfield1=val1\nfield2=val2\nMimeType=x-scheme-handler/app;application/cdf"
            .to_string();
    let mut de = DesktopEntry::try_from(&content).unwrap();
    de.delete_scheme_handler();
    assert!(!de.get("MimeType").unwrap().contains("x-scheme-handler/app"));
    assert_eq!(de.get("MimeType"), Some(&"application/cdf".to_string()));
}

#[test]
fn decode_error_kinds() {
    assert_eq!(
        DesktopEntry::try_from("[Not Desktop Entry]").unwrap_err(),
        ParseError::NotDesktopEntry
    );
    assert_eq!(
        DesktopEntry::try_from("[Desktop Entry]\nnotvalid").unwrap_err(),
        ParseError::InvalidFieldFormat
    );
    assert_eq!(
        DesktopEntry::try_from("[Desktop Entry]\na=b=c").unwrap_err(),
        ParseError::InvalidFieldFormat
    );
    assert_eq!(ParseError::NotDesktopEntry.message(), "Not a desktop entry");
    assert_eq!(ParseError::InvalidFieldFormat.message(), "Invalid field format");
}

#[test]
fn decode_preserves_order_and_values() {
    let content = "[Desktop Entry]\nK1=V1\nK2=V2";
    let de = DesktopEntry::try_from(content).unwrap();
    assert_eq!(de.get("K1"), Some(&"V1".to_string()));
    assert_eq!(de.get("K2"), Some(&"V2".to_string()));
    assert_eq!(de.to_string(), content);
}

#[test]
fn decode_empty_input() {
    let de = DesktopEntry::try_from("").unwrap();
    assert!(!de.contains_key("MimeType"));
    assert_eq!(de.to_string(), "[Desktop Entry]\n");
}

#[test]
fn encode_decode_round_trip() {
    let s = "[Desktop Entry]\nName=app\nExec=/usr/bin/app %u\nMimeType=application/cdf";
    let de = DesktopEntry::try_from(s).unwrap();
    assert_eq!(de.to_string(), s);
}

#[test]
fn decode_duplicate_key_keeps_first_position() {
    let de = DesktopEntry::try_from("[Desktop Entry]\na=1\nb=2\na=3").unwrap();
    assert_eq!(de.get("a"), Some(&"3".to_string()));
    assert_eq!(de.to_string(), "[Desktop Entry]\na=3\nb=2");
}

#[test]
fn insert_field_keeps_position_on_overwrite() {
    let mut de = DesktopEntry::new();
    de.insert_field("a".to_string(), "1".to_string());
    de.insert_field("b".to_string(), "2".to_string());
    de.insert_field("a".to_string(), "3".to_string());
    assert_eq!(de.to_string(), "[Desktop Entry]\na=3\nb=2");
}

#[test]
fn insert_scheme_handler_empty_value() {
    let mut de = DesktopEntry::try_from("[Desktop Entry]\nMimeType=").unwrap();
    de.insert_scheme_handler("x-scheme-handler/app".to_string());
    assert_eq!(de.get("MimeType"), Some(&"x-scheme-handler/app".to_string()));
}

#[test]
fn delete_scheme_handler_absent_field() {
    let mut de = DesktopEntry::try_from("[Desktop Entry]\nName=app").unwrap();
    de.delete_scheme_handler();
    assert_eq!(de.to_string(), "[Desktop Entry]\nName=app");
}

#[test]
fn delete_scheme_handler_no_token() {
    let mut de = DesktopEntry::try_from("[Desktop Entry]\nMimeType=application/cdf").unwrap();
    de.delete_scheme_handler();
    assert_eq!(de.get("MimeType"), Some(&"application/cdf".to_string()));
}

#[test]
fn register_on_empty_content() {
    let out = register("", "/usr/bin/app", "app").unwrap();
    assert_eq!(
        out,
        "[Desktop Entry]\nExec=/usr/bin/app %u\nMimeType=x-scheme-handler/app"
    );
}

#[test]
fn register_twice_is_idempotent() {
    let first = register("", "/usr/bin/app", "app").unwrap();
    let second = register(&first, "/usr/bin/app", "app").unwrap();
    assert_eq!(first, second);
}

#[test]
fn register_keeps_existing_exec_and_fields() {
    let content = "[Desktop Entry]\nName=app\nExec=/opt/app";
    let out = register(content, "/usr/bin/app", "app").unwrap();
    assert_eq!(
        out,
        "[Desktop Entry]\nName=app\nExec=/opt/app\nMimeType=x-scheme-handler/app"
    );
}

#[test]
fn register_rejects_unparsable_content() {
    assert_eq!(
        register("[Not Desktop Entry]", "/usr/bin/app", "app").unwrap_err(),
        ParseError::NotDesktopEntry
    );
}

#[test]
fn unregister_removes_handler_token() {
    let registered = register("", "/usr/bin/app", "app").unwrap();
    let out = unregister(&registered, "/usr/bin/app").unwrap();
    assert_eq!(out, "[Desktop Entry]\nExec=/usr/bin/app %u");
}

#[test]
fn unregister_keeps_other_mime_types() {
    let content = "[Desktop Entry]\nExec=/opt/app\nMimeType=x-scheme-handler/app;application/cdf";
    let out = unregister(content, "/usr/bin/app").unwrap();
    assert_eq!(out, "[Desktop Entry]\nExec=/opt/app\nMimeType=application/cdf");
}

#[test]
fn protocol_handler_methods() {
    let handler = ProtocolHandler {
        name: "myapp".to_string(),
        protocol_name: "app".to_string(),
    };
    let registered = handler.register("", "/usr/bin/myapp").unwrap();
    assert_eq!(
        registered,
        "[Desktop Entry]\nExec=/usr/bin/myapp %u\nMimeType=x-scheme-handler/app"
    );
    let unregistered = handler.unregister(&registered, "/usr/bin/myapp").unwrap();
    assert_eq!(unregistered, "[Desktop Entry]\nExec=/usr/bin/myapp %u");
    assert_eq!(
        handler.descriptor_path("/home/user"),
        "/home/user/.local/share/applications/myapp.desktop"
    );
    assert_eq!(
        descriptor_path("/home/user", "other"),
        "/home/user/.local/share/applications/other.desktop"
    );
}
