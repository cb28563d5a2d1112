use xi_editor::plugin::{
    data_from_reply, dict_get_string, dict_get_u64, parse_plugin_request, BufferInfoWrapper,
    EditType, Error, InternalError, ParamValue, PluginBufferInfo, PluginParams, PluginRequest,
    RpcReply, SaveWrapper, ScopeSpan,
};

fn no_params() -> PluginParams {
    PluginParams { buffer_info: None, save: None, fields: None }
}

fn info(id: usize) -> PluginBufferInfo {
    PluginBufferInfo {
        buffer_id: id,
        views: vec!["view-id-1".to_string()],
        rev: 3,
        buf_size: 100,
        nb_lines: 4,
        path: Some("a.rs".to_string()),
        syntax: "rust".to_string(),
    }
}

fn update_fields(with_text: bool) -> Vec<(String, ParamValue)> {
    let mut f = vec![
        ("start".to_string(), ParamValue::Unsigned(1)),
        ("end".to_string(), ParamValue::Unsigned(4)),
        ("new_len".to_string(), ParamValue::Unsigned(2)),
        ("rev".to_string(), ParamValue::Unsigned(9)),
        ("edit_type".to_string(), ParamValue::Text("delete".to_string())),
        ("author".to_string(), ParamValue::Text("core".to_string())),
    ];
    if with_text {
        f.push(("text".to_string(), ParamValue::Text("hi".to_string())));
    }
    f
}

#[test]
fn edit_types() {
    assert!(matches!(EditType::from_str("insert"), EditType::Insert));
    assert!(matches!(EditType::from_str("delete"), EditType::Delete));
    assert!(matches!(EditType::from_str("undo"), EditType::Undo));
    assert!(matches!(EditType::from_str("redo"), EditType::Redo));
    assert!(matches!(EditType::from_str("Insert"), EditType::Other));
    assert!(matches!(EditType::from_str(""), EditType::Other));
}

#[test]
fn scope_span() {
    let s = ScopeSpan::new(1, 5, 7);
    assert_eq!((s.start, s.end, s.scope_id), (1, 5, 7));
}

#[test]
fn ping() {
    assert!(matches!(parse_plugin_request("ping", no_params()), Ok(PluginRequest::Ping)));
}

#[test]
fn initialize_takes_first_buffer() {
    let params = PluginParams {
        buffer_info: Some(BufferInfoWrapper { buffer_info: vec![info(7), info(8)] }),
        save: None,
        fields: None,
    };
    match parse_plugin_request("initialize", params) {
        Ok(PluginRequest::Initialize(b)) => {
            assert_eq!(b.buffer_id, 7);
            assert_eq!(b.syntax, "rust");
        }
        other => panic!("{:?}", other),
    }
    assert!(matches!(
        parse_plugin_request("initialize", no_params()),
        Err(InternalError::InvalidParams)
    ));
}

#[test]
fn did_save() {
    let params = PluginParams {
        buffer_info: None,
        save: Some(SaveWrapper { path: "/tmp/x.rs".to_string() }),
        fields: None,
    };
    match parse_plugin_request("did_save", params) {
        Ok(PluginRequest::DidSave { path }) => assert_eq!(path, "/tmp/x.rs"),
        other => panic!("{:?}", other),
    }
    assert!(matches!(parse_plugin_request("did_save", no_params()), Err(InternalError::InvalidParams)));
}

#[test]
fn update_reads_fields() {
    let params = PluginParams { buffer_info: None, save: None, fields: Some(update_fields(true)) };
    match parse_plugin_request("update", params) {
        Ok(PluginRequest::Update { start, end, new_len, rev, edit_type, author, text }) => {
            assert_eq!((start, end, new_len, rev), (1, 4, 2, 9));
            assert!(matches!(edit_type, EditType::Delete));
            assert_eq!(author, "core");
            assert_eq!(text, Some("hi".to_string()));
        }
        other => panic!("{:?}", other),
    }
    let params = PluginParams { buffer_info: None, save: None, fields: Some(update_fields(false)) };
    match parse_plugin_request("update", params) {
        Ok(PluginRequest::Update { text, .. }) => assert_eq!(text, None),
        other => panic!("{:?}", other),
    }
}

#[test]
fn update_needs_every_field() {
    let mut f = update_fields(true);
    f.retain(|(k, _)| k != "rev");
    let params = PluginParams { buffer_info: None, save: None, fields: Some(f) };
    assert!(matches!(parse_plugin_request("update", params), Err(InternalError::InvalidParams)));
    let mut f = update_fields(true);
    f[0].1 = ParamValue::Text("1".to_string());
    let params = PluginParams { buffer_info: None, save: None, fields: Some(f) };
    assert!(matches!(parse_plugin_request("update", params), Err(InternalError::InvalidParams)));
    assert!(matches!(parse_plugin_request("update", no_params()), Err(InternalError::InvalidParams)));
}

#[test]
fn unknown_method() {
    match parse_plugin_request("frobnicate", no_params()) {
        Err(e @ InternalError::UnknownMethod(_)) => {
            assert_eq!(e.to_text(), "Unknown method frobnicate")
        }
        other => panic!("{:?}", other),
    }
    assert_eq!(InternalError::InvalidParams.to_text(), "Invalid params");
}

#[test]
fn dict_lookups() {
    let f = vec![
        ("a".to_string(), ParamValue::Unsigned(3)),
        ("b".to_string(), ParamValue::Text("x".to_string())),
        ("c".to_string(), ParamValue::Other),
    ];
    assert_eq!(dict_get_u64(&f, "a"), Some(3));
    assert_eq!(dict_get_u64(&f, "b"), None);
    assert_eq!(dict_get_u64(&f, "z"), None);
    assert_eq!(dict_get_string(&f, "b"), Some("x".to_string()));
    assert_eq!(dict_get_string(&f, "a"), None);
    assert_eq!(dict_get_string(&f, "c"), None);
}

#[test]
fn replies() {
    assert_eq!(data_from_reply(RpcReply::Text("abc".to_string())).unwrap(), "abc");
    assert!(matches!(data_from_reply(RpcReply::OtherValue), Err(Error::WrongReturnType)));
    match data_from_reply(RpcReply::Failed("closed".to_string())) {
        Err(Error::RpcError(e)) => assert_eq!(e, "closed"),
        other => panic!("{:?}", other),
    }
}
