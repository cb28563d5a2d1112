//! The plugin side of the protocol: the requests a plugin gets from the core,
//! and the types it reports with.
use vstd::prelude::*;
use crate::text::str_eq;

verus! {

/// What can go wrong when a plugin asks the core for something.
#[derive(Debug)]
pub enum Error {
    /// The request failed; the failure, as text.
    RpcError(String),
    /// The core answered with a value of the wrong type.
    WrongReturnType,
}

/// What a peer answered to a request.
#[derive(Debug)]
pub enum RpcReply {
    /// A JSON string.
    Text(String),
    /// A JSON value that is not a string.
    OtherValue,
    /// The request failed; the failure, as text.
    Failed(String),
}

/// The buffer data asked for, out of the core's reply: a string reply is the
/// data, any other value is the wrong type, and a failure stays a failure.
pub fn data_from_reply(reply: RpcReply) -> (r: Result<String, Error>)
    ensures
        match reply {
            RpcReply::Text(s) => r == Ok::<String, Error>(s),
            RpcReply::OtherValue => r matches Err(Error::WrongReturnType),
            RpcReply::Failed(e) => r matches Err(Error::RpcError(f)) && f == e,
        },
{
    match reply {
        RpcReply::Text(s) => Ok(s),
        RpcReply::OtherValue => Err(Error::WrongReturnType),
        RpcReply::Failed(e) => Err(Error::RpcError(e)),
    }
}

/// A span of a buffer with the scope that applies to it.
#[derive(Debug)]
pub struct ScopeSpan {
    pub start: usize,
    pub end: usize,
    pub scope_id: u32,
}

impl ScopeSpan {
    pub fn new(start: usize, end: usize, scope_id: u32) -> (r: Self)
        ensures
            r.start == start,
            r.end == end,
            r.scope_id == scope_id,
    {
        ScopeSpan { start, end, scope_id }
    }
}

/// The kind of an edit, as the core reports it.
#[derive(Debug, Clone, Copy)]
pub enum EditType {
    Insert,
    Delete,
    Undo,
    Redo,
    Other,
}

/// The kind of edit that the name `s` stands for.
pub open spec fn edit_type_of(s: Seq<char>) -> EditType {
    if s == "insert"@ {
        EditType::Insert
    } else if s == "delete"@ {
        EditType::Delete
    } else if s == "undo"@ {
        EditType::Undo
    } else if s == "redo"@ {
        EditType::Redo
    } else {
        EditType::Other
    }
}

impl EditType {
    /// The kind of edit named `s`; any name but "insert", "delete", "undo"
    /// and "redo" is `Other`.
    pub fn from_str(s: &str) -> (r: Self)
        ensures
            r == edit_type_of(s@),
    {
        if str_eq(s, "insert") {
            EditType::Insert
        } else if str_eq(s, "delete") {
            EditType::Delete
        } else if str_eq(s, "undo") {
            EditType::Undo
        } else if str_eq(s, "redo") {
            EditType::Redo
        } else {
            EditType::Other
        }
    }
}

/// Buffer information sent on plugin init.
#[derive(Debug, Clone)]
pub struct PluginBufferInfo {
    pub buffer_id: usize,
    pub views: Vec<String>,
    pub rev: u64,
    pub buf_size: usize,
    pub nb_lines: usize,
    pub path: Option<String>,
    pub syntax: String,
}

/// The parameters of "initialize".
#[derive(Debug, Clone)]
pub struct BufferInfoWrapper {
    pub buffer_info: Vec<PluginBufferInfo>,
}

/// The parameters of "did_save".
#[derive(Debug, Clone)]
pub struct SaveWrapper {
    pub path: String,
}

/// A request (or notification) from the core to a plugin.
#[derive(Debug)]
pub enum PluginRequest {
    Ping,
    Initialize(PluginBufferInfo),
    Update {
        start: usize,
        end: usize,
        new_len: usize,
        rev: u64,
        edit_type: EditType,
        author: String,
        text: Option<String>,
    },
    DidSave { path: String },
}

/// Why a request could not be read.
#[derive(Debug)]
pub enum InternalError {
    InvalidParams,
    UnknownMethod(String),
}

impl InternalError {
    /// The error as text: "Unknown method " and the method's name, or
    /// "Invalid params".
    pub fn to_text(&self) -> (r: String)
        ensures
            r@ == match self {
                InternalError::UnknownMethod(m) => "Unknown method "@ + m@,
                InternalError::InvalidParams => "Invalid params"@,
            },
    {
        match self {
            InternalError::UnknownMethod(m) => {
                let mut s = String::from_str("Unknown method ");
                s.append(m.as_str());
                s
            },
            InternalError::InvalidParams => String::from_str("Invalid params"),
        }
    }
}

/// What the reading of a request looks at in one field of its parameters.
#[derive(Debug)]
pub enum ParamValue {
    /// A number that is a `u64`.
    Unsigned(u64),
    /// A string.
    Text(String),
    /// Anything else.
    Other,
}

/// The parameters of a request, as far as reading it looks at them.
#[derive(Debug)]
pub struct PluginParams {
    /// The parameters read as the parameters of "initialize", when they read as such.
    pub buffer_info: Option<BufferInfoWrapper>,
    /// The parameters read as the parameters of "did_save", when they read as such.
    pub save: Option<SaveWrapper>,
    /// The fields of the parameters, in order, when they are an object.
    pub fields: Option<Vec<(String, ParamValue)>>,
}

/// The value of the first field named `key`.
pub open spec fn field_value(fields: Seq<(String, ParamValue)>, key: Seq<char>) -> Option<ParamValue>
    decreases fields.len(),
{
    if fields.len() == 0 {
        None
    } else if fields[0].0@ == key {
        Some(fields[0].1)
    } else {
        field_value(fields.drop_first(), key)
    }
}

/// The field named `key`, when it is a `u64`.
pub open spec fn field_u64(fields: Seq<(String, ParamValue)>, key: Seq<char>) -> Option<u64> {
    match field_value(fields, key) {
        Some(ParamValue::Unsigned(n)) => Some(n),
        _ => None,
    }
}

/// The field named `key`, when it is a string.
pub open spec fn field_str(fields: Seq<(String, ParamValue)>, key: Seq<char>) -> Option<Seq<char>> {
    match field_value(fields, key) {
        Some(ParamValue::Text(s)) => Some(s@),
        _ => None,
    }
}

/// The field named `key` of `dict`, when it is a `u64`.
pub fn dict_get_u64(dict: &Vec<(String, ParamValue)>, key: &str) -> (r: Option<u64>)
    ensures
        r == field_u64(dict@, key@),
        field_value(dict@, key@) matches Some(ParamValue::Unsigned(n)) ==> r == Some(n),
        !(field_value(dict@, key@) matches Some(ParamValue::Unsigned(_))) ==> r is None,
{
    let mut i: usize = 0;
    assert(dict@.skip(0) =~= dict@);
    while i < dict.len()
        invariant
            i <= dict@.len(),
            field_value(dict@, key@) == field_value(dict@.skip(i as int), key@),
        decreases dict@.len() - i,
    {
        assert(dict@.skip(i as int)[0] == dict@[i as int]);
        if str_eq(dict[i].0.as_str(), key) {
            return match &dict[i].1 {
                ParamValue::Unsigned(n) => Some(*n),
                _ => None,
            };
        }
        assert(dict@.skip(i as int).drop_first() =~= dict@.skip(i + 1));
        i += 1;
    }
    None
}

/// The field named `key` of `dict`, when it is a string.
pub fn dict_get_string(dict: &Vec<(String, ParamValue)>, key: &str) -> (r: Option<String>)
    ensures
        match r {
            Some(s) => field_str(dict@, key@) == Some(s@),
            None => field_str(dict@, key@) is None,
        },
        field_value(dict@, key@) matches Some(ParamValue::Text(t)) ==> (r matches Some(s) && s@ == t@),
        !(field_value(dict@, key@) matches Some(ParamValue::Text(_))) ==> r is None,
{
    let mut i: usize = 0;
    assert(dict@.skip(0) =~= dict@);
    while i < dict.len()
        invariant
            i <= dict@.len(),
            field_value(dict@, key@) == field_value(dict@.skip(i as int), key@),
        decreases dict@.len() - i,
    {
        assert(dict@.skip(i as int)[0] == dict@[i as int]);
        if str_eq(dict[i].0.as_str(), key) {
            return match &dict[i].1 {
                ParamValue::Text(s) => Some(s.clone()),
                _ => None,
            };
        }
        assert(dict@.skip(i as int).drop_first() =~= dict@.skip(i + 1));
        i += 1;
    }
    None
}

/// A lookup finds the first field named `key`, whatever its value.
pub proof fn law_field_value_first(fields: Seq<(String, ParamValue)>, key: Seq<char>, k: int)
    requires
        0 <= k < fields.len(),
        fields[k].0@ == key,
        forall|j: int| 0 <= j < k ==> (#[trigger] fields[j]).0@ != key,
    ensures
        field_value(fields, key) == Some(fields[k].1),
    decreases k,
{
    if k > 0 {
        let rest = fields.drop_first();
        assert forall|j: int| 0 <= j < k - 1 implies (#[trigger] rest[j]).0@ != key by {
            assert(rest[j] == fields[j + 1]);
        }
        assert(rest[k - 1] == fields[k]);
        assert(fields[0].0@ != key);
        law_field_value_first(rest, key, k - 1);
    }
}

/// A field that holds a `u64` reads as that number, whatever it is, 0
/// included; a field that holds a string reads as that string.
pub proof fn law_field_reads(fields: Seq<(String, ParamValue)>, key: Seq<char>)
    ensures
        field_value(fields, key) matches Some(ParamValue::Unsigned(n)) ==> field_u64(fields, key) == Some(n),
        field_value(fields, key) matches Some(ParamValue::Text(t)) ==> field_str(fields, key) == Some(t@),
        field_value(fields, key) is None ==> field_u64(fields, key) is None && field_str(fields, key) is None,
{
}

/// An "update" whose six fields hold numbers and strings is read, every
/// number as it is (0 included): start, end, new_len and rev are the numbers
/// of those fields, and the author the string of its field.
pub proof fn law_update_reads_numbers(
    r: PluginRequest,
    f: Seq<(String, ParamValue)>,
    start: u64,
    end: u64,
    new_len: u64,
    rev: u64,
    edit_type: String,
    author: String,
)
    requires
        field_value(f, "start"@) == Some(ParamValue::Unsigned(start)),
        field_value(f, "end"@) == Some(ParamValue::Unsigned(end)),
        field_value(f, "new_len"@) == Some(ParamValue::Unsigned(new_len)),
        field_value(f, "rev"@) == Some(ParamValue::Unsigned(rev)),
        field_value(f, "edit_type"@) == Some(ParamValue::Text(edit_type)),
        field_value(f, "author"@) == Some(ParamValue::Text(author)),
        is_update_of(r, f),
    ensures
        update_fields_present(f),
        r matches PluginRequest::Update { start: s, end: e, new_len: n, rev: v, author: a, .. } && s
            == start as usize && e == end as usize && n == new_len as usize && v == rev && a@ == author@,
{
}

/// The fields that "update" needs are all there.
pub open spec fn update_fields_present(f: Seq<(String, ParamValue)>) -> bool {
    &&& field_u64(f, "start"@) is Some
    &&& field_u64(f, "end"@) is Some
    &&& field_u64(f, "new_len"@) is Some
    &&& field_u64(f, "rev"@) is Some
    &&& field_str(f, "edit_type"@) is Some
    &&& field_str(f, "author"@) is Some
}

/// `r` is the "update" request that the fields `f` describe.
pub open spec fn is_update_of(r: PluginRequest, f: Seq<(String, ParamValue)>) -> bool {
    match r {
        PluginRequest::Update { start, end, new_len, rev, edit_type, author, text } => {
            &&& start == field_u64(f, "start"@).unwrap() as usize
            &&& end == field_u64(f, "end"@).unwrap() as usize
            &&& new_len == field_u64(f, "new_len"@).unwrap() as usize
            &&& rev == field_u64(f, "rev"@).unwrap()
            &&& edit_type == edit_type_of(field_str(f, "edit_type"@).unwrap())
            &&& author@ == field_str(f, "author"@).unwrap()
            &&& match text {
                Some(t) => field_str(f, "text"@) == Some(t@),
                None => field_str(f, "text"@) is None,
            }
        },
        _ => false,
    }
}

/// Reads the request `method` with parameters `params`: "ping" needs
/// nothing; "initialize" takes the first buffer of its parameters;
/// "did_save" takes the saved path; "update" needs the numbers "start",
/// "end", "new_len", "rev" and the strings "edit_type", "author", and takes
/// the string "text" when there is one. Parameters that do not read as the
/// method needs give `InvalidParams`, and any other method `UnknownMethod`.
pub fn parse_plugin_request(method: &str, params: PluginParams) -> (r: Result<PluginRequest, InternalError>)
    requires
        method@ == "initialize"@ ==> (params.buffer_info matches Some(w) ==> w.buffer_info@.len() > 0),
    ensures
        method@ == "ping"@ ==> r matches Ok(PluginRequest::Ping),
        method@ == "initialize"@ ==> match params.buffer_info {
            Some(w) => r == Ok::<PluginRequest, InternalError>(PluginRequest::Initialize(w.buffer_info@[0])),
            None => r matches Err(InternalError::InvalidParams),
        },
        method@ == "did_save"@ ==> match params.save {
            Some(sw) => r == Ok::<PluginRequest, InternalError>(PluginRequest::DidSave { path: sw.path }),
            None => r matches Err(InternalError::InvalidParams),
        },
        method@ == "update"@ ==> match params.fields {
            Some(f) => if update_fields_present(f@) {
                r matches Ok(req) && is_update_of(req, f@)
            } else {
                r matches Err(InternalError::InvalidParams)
            },
            None => r matches Err(InternalError::InvalidParams),
        },
        method@ != "ping"@ && method@ != "initialize"@ && method@ != "did_save"@ && method@ != "update"@
            ==> (r matches Err(InternalError::UnknownMethod(m)) && m@ == method@),
{
    proof {
        reveal_strlit("ping");
        reveal_strlit("initialize");
        reveal_strlit("did_save");
        reveal_strlit("update");
        assert("ping"@.len() == 4);
        assert("initialize"@.len() == 10);
        assert("did_save"@.len() == 8);
        assert("update"@.len() == 6);
    }
    if str_eq(method, "ping") {
        Ok(PluginRequest::Ping)
    } else if str_eq(method, "initialize") {
        match params.buffer_info {
            Some(w) => {
                let mut buffer_info = w.buffer_info;
                let ghost b0 = buffer_info@[0];
                let x = buffer_info.remove(0);
                assert(x == b0);
                Ok(PluginRequest::Initialize(x))
            },
            None => Err(InternalError::InvalidParams),
        }
    } else if str_eq(method, "did_save") {
        match params.save {
            Some(sw) => Ok(PluginRequest::DidSave { path: sw.path }),
            None => Err(InternalError::InvalidParams),
        }
    } else if str_eq(method, "update") {
        match params.fields {
            Some(dict) => {
                let start = dict_get_u64(&dict, "start");
                let end = dict_get_u64(&dict, "end");
                let new_len = dict_get_u64(&dict, "new_len");
                let rev = dict_get_u64(&dict, "rev");
                let edit_type = dict_get_string(&dict, "edit_type");
                let author = dict_get_string(&dict, "author");
                match (start, end, new_len, rev, edit_type, author) {
                    (Some(start), Some(end), Some(new_len), Some(rev), Some(edit_type), Some(author)) => {
                        Ok(PluginRequest::Update {
                            start: start as usize,
                            end: end as usize,
                            new_len: new_len as usize,
                            rev,
                            edit_type: EditType::from_str(edit_type.as_str()),
                            author,
                            text: dict_get_string(&dict, "text"),
                        })
                    },
                    _ => Err(InternalError::InvalidParams),
                }
            },
            None => Err(InternalError::InvalidParams),
        }
    } else {
        Err(InternalError::UnknownMethod(String::from_str(method)))
    }
}

} // verus!
