use ide_session::codec::{decode, encode};
use ide_session::message::{EditorMessage, EditorMessageContents, IdeType, UpdateMessageContents};

fn all_none_update() -> EditorMessageContents {
    EditorMessageContents::Update(UpdateMessageContents {
        path: None,
        contents: None,
        cursor_position: None,
        scroll_position: None,
    })
}

#[test]
fn encodes_closed() {
    let m = EditorMessage::new(0, EditorMessageContents::Closed);
    assert_eq!(encode(&m), r#"{"id":0,"message":"Closed"}"#);
}

#[test]
fn encodes_opened() {
    let m = EditorMessage::new(12, EditorMessageContents::Opened(IdeType::VSCode(true)));
    assert_eq!(encode(&m), r#"{"id":12,"message":{"Opened":{"VSCode":true}}}"#);
    let m = EditorMessage::new(3, EditorMessageContents::Opened(IdeType::DeveloperMode));
    assert_eq!(encode(&m), r#"{"id":3,"message":{"Opened":"DeveloperMode"}}"#);
}

#[test]
fn encodes_result_with_escapes() {
    let m = EditorMessage::new(
        7,
        EditorMessageContents::Result("a\"b\\c\nd\te\rf".to_string()),
    );
    assert_eq!(
        encode(&m),
        r#"{"id":7,"message":{"Result":"a\"b\\c\nd\te\rf"}}"#
    );
}

#[test]
fn encodes_update() {
    let m = EditorMessage::new(0, all_none_update());
    assert_eq!(
        encode(&m),
        r#"{"id":0,"message":{"Update":{"path":null,"contents":null,"cursor_position":null,"scroll_position":null}}}"#
    );
    let m = EditorMessage::new(
        18446744073709551615,
        EditorMessageContents::Update(UpdateMessageContents {
            path: Some("a.rs".to_string()),
            contents: Some("x = 1;".to_string()),
            cursor_position: Some(4294967295),
            scroll_position: Some(10),
        }),
    );
    assert_eq!(
        encode(&m),
        r#"{"id":18446744073709551615,"message":{"Update":{"path":"a.rs","contents":"x = 1;","cursor_position":4294967295,"scroll_position":10}}}"#
    );
}

#[test]
fn round_trips() {
    let messages = vec![
        EditorMessage::new(0, EditorMessageContents::Closed),
        EditorMessage::new(1, EditorMessageContents::Opened(IdeType::VSCode(false))),
        EditorMessage::new(2, EditorMessageContents::Opened(IdeType::VSCode(true))),
        EditorMessage::new(3, EditorMessageContents::Opened(IdeType::DeveloperMode)),
        EditorMessage::new(4, EditorMessageContents::ClientHtml("<p class=\"x\">é\n</p>".to_string())),
        EditorMessage::new(5, EditorMessageContents::Result(String::new())),
        EditorMessage::new(10, EditorMessageContents::Result("\\\\\"".to_string())),
        EditorMessage::new(0, all_none_update()),
        EditorMessage::new(
            u64::MAX,
            EditorMessageContents::Update(UpdateMessageContents {
                path: Some("dir/file.py".to_string()),
                contents: Some(String::new()),
                cursor_position: Some(0),
                scroll_position: Some(u32::MAX),
            }),
        ),
    ];
    for m in messages {
        assert_eq!(decode(&encode(&m)), Some(m));
    }
}

#[test]
fn decodes_wire_text() {
    assert_eq!(
        decode(r#"{"id":9,"message":{"Result":"Unexpected message"}}"#),
        Some(EditorMessage::new(
            9,
            EditorMessageContents::Result("Unexpected message".to_string())
        ))
    );
}

#[test]
fn rejects_malformed_text() {
    for text in [
        "",
        "{}",
        r#"{"id":1,"message":"Closed"} "#,
        r#"{ "id":1,"message":"Closed"}"#,
        r#"{"id":01,"message":"Closed"}"#,
        r#"{"id":18446744073709551616,"message":"Closed"}"#,
        r#"{"id":1,"message":"Open"}"#,
        r#"{"id":1,"message":{"Opened":"VSCode"}}"#,
        r#"{"id":1,"message":{"Result":"a\qb"}}"#,
        r#"{"id":1,"message":{"Result":"a
b"}}"#,
        r#"{"id":1,"message":{"Update":{"path":null,"contents":null,"cursor_position":4294967296,"scroll_position":null}}}"#,
        r#"{"id":1,"message":{"Closed":null}}"#,
    ] {
        assert_eq!(decode(text), None, "{text}");
    }
}
