use vstd::prelude::*;

verus! {

/// The kind of IDE that opened a session. `VSCode` carries whether the IDE
/// hosts the client itself (`true`) or needs an external browser (`false`).
#[derive(Clone, Copy, Debug, PartialEq, Eq, Structural)]
pub enum IdeType {
    VSCode(bool),
    DeveloperMode,
}

/// A content, cursor or scroll update. The session broker only relays it.
#[derive(Clone, Debug, PartialEq, Eq)]
pub struct UpdateMessageContents {
    pub path: Option<String>,
    pub contents: Option<String>,
    pub cursor_position: Option<u32>,
    pub scroll_position: Option<u32>,
}

/// What a message carries.
#[derive(Clone, Debug, PartialEq, Eq)]
pub enum EditorMessageContents {
    /// The first message an IDE sends.
    Opened(IdeType),
    /// Content for a self-hosted IDE to render.
    ClientHtml(String),
    /// The reply to an earlier message: empty on success, else an error text.
    Result(String),
    Update(UpdateMessageContents),
    /// The session is ending.
    Closed,
}

/// A message with the id that correlates it with its reply. Id 0 is used by
/// messages the server starts.
#[derive(Clone, Debug, PartialEq, Eq)]
pub struct EditorMessage {
    pub id: u64,
    pub message: EditorMessageContents,
}

/// An update as plain values.
pub struct UpdateView {
    pub path: Option<Seq<char>>,
    pub contents: Option<Seq<char>>,
    pub cursor_position: Option<u32>,
    pub scroll_position: Option<u32>,
}

/// Message contents as plain values.
pub enum ContentsView {
    Opened(IdeType),
    ClientHtml(Seq<char>),
    Result(Seq<char>),
    Update(UpdateView),
    Closed,
}

/// A message as plain values.
pub struct MessageView {
    pub id: u64,
    pub contents: ContentsView,
}

impl View for UpdateMessageContents {
    type V = UpdateView;

    open spec fn view(&self) -> UpdateView {
        UpdateView {
            path: match self.path {
                Some(p) => Some(p@),
                None => None,
            },
            contents: match self.contents {
                Some(c) => Some(c@),
                None => None,
            },
            cursor_position: self.cursor_position,
            scroll_position: self.scroll_position,
        }
    }
}

impl View for EditorMessageContents {
    type V = ContentsView;

    open spec fn view(&self) -> ContentsView {
        match self {
            EditorMessageContents::Opened(t) => ContentsView::Opened(*t),
            EditorMessageContents::ClientHtml(s) => ContentsView::ClientHtml(s@),
            EditorMessageContents::Result(s) => ContentsView::Result(s@),
            EditorMessageContents::Update(u) => ContentsView::Update(u@),
            EditorMessageContents::Closed => ContentsView::Closed,
        }
    }
}

impl View for EditorMessage {
    type V = MessageView;

    open spec fn view(&self) -> MessageView {
        MessageView { id: self.id, contents: self.message@ }
    }
}

/// The name of a variant, as it appears in diagnostics.
pub open spec fn variant_name(c: ContentsView) -> Seq<char> {
    match c {
        ContentsView::Opened(_) => "Opened"@,
        ContentsView::ClientHtml(_) => "ClientHtml"@,
        ContentsView::Result(_) => "Result"@,
        ContentsView::Update(_) => "Update"@,
        ContentsView::Closed => "Closed"@,
    }
}

/// The name of an IDE type, as it appears in diagnostics.
pub open spec fn ide_type_name(t: IdeType) -> Seq<char> {
    match t {
        IdeType::VSCode(true) => "VSCode(self-hosted)"@,
        IdeType::VSCode(false) => "VSCode(external browser)"@,
        IdeType::DeveloperMode => "DeveloperMode"@,
    }
}

impl EditorMessageContents {
    /// The name of this variant.
    pub fn variant_name(&self) -> (r: &'static str)
        ensures
            r@ == variant_name(self@),
    {
        match self {
            EditorMessageContents::Opened(_) => "Opened",
            EditorMessageContents::ClientHtml(_) => "ClientHtml",
            EditorMessageContents::Result(_) => "Result",
            EditorMessageContents::Update(_) => "Update",
            EditorMessageContents::Closed => "Closed",
        }
    }
}

impl IdeType {
    /// The name of this IDE type.
    pub fn name(&self) -> (r: &'static str)
        ensures
            r@ == ide_type_name(*self),
    {
        match self {
            IdeType::VSCode(true) => "VSCode(self-hosted)",
            IdeType::VSCode(false) => "VSCode(external browser)",
            IdeType::DeveloperMode => "DeveloperMode",
        }
    }
}

impl EditorMessage {
    /// A message with the given id and contents.
    pub fn new(id: u64, message: EditorMessageContents) -> (r: EditorMessage)
        ensures
            r@ == (MessageView { id, contents: message@ }),
    {
        EditorMessage { id, message }
    }
}

} // verus!
