//! The commands that the front-end sends to the core, and the parts of
//! their wire form that are this protocol's own: positional parameters and the
//! parameters of edit commands.
use vstd::prelude::*;

verus! {

/// Identifies a view.
pub type ViewIdentifier = String;

#[derive(Debug, PartialEq)]
pub struct EmptyStruct {}

#[derive(Debug, PartialEq)]
pub enum CoreNotification {
    Edit(EditCommand<EditNotification>),
    Plugin(PluginNotification),
    CloseView { view_id: ViewIdentifier },
    Save { view_id: ViewIdentifier, file_path: String },
    SetTheme { theme_name: String },
    ClientStarted(EmptyStruct),
}

#[derive(Debug, PartialEq)]
pub enum CoreRequest {
    Edit(EditCommand<EditRequest>),
    NewView { file_path: Option<String> },
}

/// A command addressed to one view.
#[derive(Debug, Clone, PartialEq)]
pub struct EditCommand<T> {
    pub view_id: ViewIdentifier,
    pub cmd: T,
}

/// An enum representing touch and mouse gestures applied to the text.
#[derive(PartialEq, Eq, Debug)]
pub enum GestureType {
    ToggleSel,
}

/// A range of lines; on the wire, the array `[first, last]`.
#[derive(PartialEq, Eq, Debug)]
pub struct LineRange {
    pub first: i64,
    pub last: i64,
}

/// A mouse action; on the wire, the array `[line, column, flags]` or
/// `[line, column, flags, click_count]`.
#[derive(PartialEq, Eq, Debug)]
pub struct MouseAction {
    pub line: u64,
    pub column: u64,
    pub flags: u64,
    pub click_count: Option<u64>,
}

#[derive(Debug, PartialEq)]
pub enum EditNotification {
    Insert { chars: String },
    DeleteForward,
    DeleteBackward,
    DeleteWordForward,
    DeleteWordBackward,
    DeleteToEndOfParagraph,
    DeleteToBeginningOfLine,
    InsertNewline,
    InsertTab,
    MoveUp,
    MoveUpAndModifySelection,
    MoveDown,
    MoveDownAndModifySelection,
    MoveLeft,
    // synonym for `MoveLeft`
    MoveBackward,
    MoveLeftAndModifySelection,
    MoveRight,
    // synonym for `MoveRight`
    MoveForward,
    MoveRightAndModifySelection,
    MoveWordLeft,
    MoveWordLeftAndModifySelection,
    MoveWordRight,
    MoveWordRightAndModifySelection,
    MoveToBeginningOfParagraph,
    MoveToEndOfParagraph,
    MoveToLeftEndOfLine,
    MoveToLeftEndOfLineAndModifySelection,
    MoveToRightEndOfLine,
    MoveToRightEndOfLineAndModifySelection,
    MoveToBeginningOfDocument,
    MoveToBeginningOfDocumentAndModifySelection,
    MoveToEndOfDocument,
    MoveToEndOfDocumentAndModifySelection,
    ScrollPageUp,
    PageUpAndModifySelection,
    ScrollPageDown,
    PageDownAndModifySelection,
    SelectAll,
    AddSelectionAbove,
    AddSelectionBelow,
    Scroll(LineRange),
    GotoLine { line: u64 },
    RequestLines(LineRange),
    Yank,
    Transpose,
    Click(MouseAction),
    Drag(MouseAction),
    Gesture { line: u64, column: u64, ty: GestureType },
    Undo,
    Redo,
    FindNext { wrap_around: Option<bool>, allow_same: Option<bool> },
    FindPrevious { wrap_around: Option<bool> },
    DebugRewrap,
    DebugPrintSpans,
}

#[derive(Debug, PartialEq)]
pub enum EditRequest {
    Cut,
    Copy,
    Find { chars: Option<String>, case_sensitive: bool },
}

/// Whether a forwarded call to a plugin expects an answer.
#[derive(Debug, PartialEq, Eq, Clone, Copy)]
pub enum RpcType {
    Notification,
    Request,
}

/// A call forwarded to a plugin, its parameters kept as JSON text.
#[derive(Debug, PartialEq, Clone)]
pub struct PlaceholderRpc {
    pub method: String,
    pub params: String,
    pub rpc_type: RpcType,
}

#[derive(Debug, PartialEq)]
pub enum PluginNotification {
    Start { view_id: ViewIdentifier, plugin_name: String },
    Stop { view_id: ViewIdentifier, plugin_name: String },
    PluginRpc { view_id: ViewIdentifier, receiver: String, rpc: PlaceholderRpc },
}

/// The action that the array `v` holds.
pub open spec fn action_from_params(v: Seq<u64>) -> MouseAction {
    MouseAction {
        line: v[0],
        column: v[1],
        flags: v[2],
        click_count: if v.len() == 4 {
            Some(v[3])
        } else {
            None
        },
    }
}

/// Whatever the length of an array of at least three numbers, the action
/// read from it has its first three numbers as line, column and flags, and a
/// click count exactly when there is a fourth and last number, that number.
pub proof fn law_mouse_action_fields(v: Seq<u64>)
    requires
        v.len() >= 3,
    ensures
        action_from_params(v).line == v[0],
        action_from_params(v).column == v[1],
        action_from_params(v).flags == v[2],
        action_from_params(v).click_count is Some <==> v.len() == 4,
        action_from_params(v).click_count matches Some(c) ==> c == v[3],
{
}

/// An action with a click count reads back from the array it is written as.
/// (Without one, it is written with a null fourth element, which does not
/// read back as an array of numbers.)
pub proof fn law_mouse_action_round_trip(a: MouseAction, cc: u64)
    requires
        a.click_count == Some(cc),
    ensures
        action_from_params(seq![a.line, a.column, a.flags, cc]) == a,
{
}

impl MouseAction {
    /// The action that the array `v` holds: line, column and flags, then the
    /// click count when there is a fourth number.
    pub fn from_params(v: &Vec<u64>) -> (r: MouseAction)
        requires
            v@.len() >= 3,
        ensures
            r == action_from_params(v@),
            r.line == v@[0],
            r.column == v@[1],
            r.flags == v@[2],
            r.click_count is Some <==> v@.len() == 4,
            r.click_count matches Some(c) ==> c == v@[3],
    {
        let click_count = if v.len() == 4 {
            Some(v[3])
        } else {
            None
        };
        MouseAction { line: v[0], column: v[1], flags: v[2], click_count: click_count }
    }

    /// The array that stands for this action: line, column, flags and
    /// click count (null when there is none).
    pub fn to_params(&self) -> (r: (u64, u64, u64, Option<u64>))
        ensures
            r == (self.line, self.column, self.flags, self.click_count),
    {
        (self.line, self.column, self.flags, self.click_count)
    }
}

impl LineRange {
    /// The range that the array `[first, last]` stands for.
    pub fn from_pair(first: i64, last: i64) -> (r: LineRange)
        ensures
            r.first == first,
            r.last == last,
    {
        LineRange { first, last }
    }

    /// The array `[first, last]` that stands for this range.
    pub fn to_pair(&self) -> (r: (i64, i64))
        ensures
            r == (self.first, self.last),
    {
        (self.first, self.last)
    }
}

/// What the "params" field of an edit command holds.
#[derive(Debug, Clone, Copy, PartialEq, Eq)]
pub enum ParamsShape {
    /// There is no such field.
    Absent,
    /// An object with this many fields.
    Object(usize),
    /// An array with this many elements.
    Array(usize),
    /// Any other value.
    Other,
}

/// The text of the error for "params" that are neither an object nor an array.
pub open spec fn bad_params_message() -> Seq<char> {
    "'params' field, if present, must be object or array."@
}

/// Whether the "params" of an edit command are dropped before its command is
/// read: they are when they are an empty object or an empty array. "params"
/// that are neither an object nor an array are an error.
pub fn params_to_drop(shape: ParamsShape) -> (r: Result<bool, String>)
    ensures
        match shape {
            ParamsShape::Absent => r == Ok::<bool, String>(false),
            ParamsShape::Object(n) => r == Ok::<bool, String>(n == 0),
            ParamsShape::Array(n) => r == Ok::<bool, String>(n == 0),
            ParamsShape::Other => r matches Err(e) && e@ == bad_params_message(),
        },
{
    match shape {
        ParamsShape::Object(n) => Ok(n == 0),
        ParamsShape::Array(n) => Ok(n == 0),
        ParamsShape::Other => Err(String::from_str("'params' field, if present, must be object or array.")),
        ParamsShape::Absent => Ok(false),
    }
}

} // verus!
