use foldquery::json::{index_pointer, parse_error, read_found, read_len, read_text, read_u64};
use foldquery::llm::decode_reply;

#[test]
fn pointers_read_values() {
    let doc = "{\"a\": {\"b\": \"x\", \"n\": 7, \"neg\": -1, \"list\": [1, 2, 3]}, \"t\": true}";
    assert_eq!(read_text(doc, "/a/b").as_deref(), Some("x"));
    assert_eq!(read_text(doc, "/a/n"), None);
    assert_eq!(read_u64(doc, "/a/n"), Some(7));
    assert_eq!(read_u64(doc, "/a/neg"), None);
    assert_eq!(read_len(doc, "/a/list"), Some(3));
    assert_eq!(read_len(doc, "/a"), None);
    assert!(read_found(doc, "/t"));
    assert!(read_found(doc, ""));
    assert!(!read_found(doc, "/missing"));
    assert_eq!(read_u64(doc, &index_pointer("/a/list", 2)), Some(3));
    assert_eq!(index_pointer("/x", 10), "/x/10");
    assert_eq!(parse_error(doc), None);
    assert!(parse_error("{oops").is_some());
    assert_eq!(read_text("{oops", ""), None);
}

#[test]
fn whole_replies_are_decoded() {
    assert!(matches!(decode_reply("<html>"), Err(e) if e.starts_with("Bad response: ")));
    assert!(matches!(decode_reply("{\"choices\": []}"), Ok(None)));
    assert!(matches!(decode_reply("{\"error\": \"quota\"}"), Ok(None)));
    let body = "{\"choices\": [{\"message\": {\"content\": \"ok\", \"tool_calls\": [{\"id\": \"a\", \"function\": {\"name\": \"edit_code\", \"arguments\": \"{}\"}}]}}]}";
    match decode_reply(body) {
        Ok(Some(m)) => {
            assert_eq!(m.content.as_deref(), Some("ok"));
            let calls = m.tool_calls.expect("tool calls");
            assert_eq!(calls.len(), 1);
            assert_eq!(calls[0].id.as_deref(), Some("a"));
            assert_eq!(calls[0].name.as_deref(), Some("edit_code"));
            assert_eq!(calls[0].arguments.as_deref(), Some("{}"));
            assert_eq!(calls[0].index, None);
        }
        _ => panic!("expected a message"),
    }
    match decode_reply("{\"choices\": [{\"message\": {\"content\": null}}]}") {
        Ok(Some(m)) => {
            assert_eq!(m.content, None);
            assert!(m.tool_calls.is_none());
        }
        _ => panic!("expected a message"),
    }
}
