use vstd::prelude::*;

use crate::message::{
    ide_type_name, variant_name, ContentsView, EditorMessage, EditorMessageContents, IdeType,
    MessageView,
};

verus! {

/// Where the one-time handshake of a session stands.
#[derive(Clone, Copy, Debug, PartialEq, Eq, Structural)]
pub enum HandshakeState {
    /// Waiting for the IDE's first message.
    AwaitOpened,
    /// The IDE opened with message `id` and asked for an external browser,
    /// whose launch is under way.
    AwaitLaunch(u64),
    /// The session is usable; the handshake has nothing more to do.
    Ready,
    /// The session was refused or its inbound queue went away.
    Closed,
}

/// What the handshake learns from the outside.
#[derive(Clone, Debug, PartialEq, Eq)]
pub enum HandshakeEvent {
    /// The next message from the IDE.
    Received(EditorMessage),
    /// The IDE's inbound queue closed before a message came.
    InboundClosed,
    /// The external browser was started.
    LaunchSucceeded,
    /// The external browser could not be started, for the given reason.
    LaunchFailed(String),
}

/// An event as plain values.
pub enum EventView {
    Received(MessageView),
    InboundClosed,
    LaunchSucceeded,
    LaunchFailed(Seq<char>),
}

impl View for HandshakeEvent {
    type V = EventView;

    open spec fn view(&self) -> EventView {
        match self {
            HandshakeEvent::Received(m) => EventView::Received(m@),
            HandshakeEvent::InboundClosed => EventView::InboundClosed,
            HandshakeEvent::LaunchSucceeded => EventView::LaunchSucceeded,
            HandshakeEvent::LaunchFailed(e) => EventView::LaunchFailed(e@),
        }
    }
}

/// The outcome of one step: the next state, the messages to send to the IDE
/// in order, and whether to start the external browser.
pub struct Transition {
    pub next: HandshakeState,
    pub outbox: Vec<EditorMessage>,
    pub launch_browser: bool,
}

/// A transition as plain values.
pub struct TransitionView {
    pub next: HandshakeState,
    pub outbox: Seq<MessageView>,
    pub launch_browser: bool,
}

pub open spec fn messages_view(v: Seq<EditorMessage>) -> Seq<MessageView> {
    v.map_values(|m: EditorMessage| m@)
}

impl View for Transition {
    type V = TransitionView;

    open spec fn view(&self) -> TransitionView {
        TransitionView {
            next: self.next,
            outbox: messages_view(self.outbox@),
            launch_browser: self.launch_browser,
        }
    }
}

/// The reply to message `id` with the given text.
pub open spec fn result_message(id: u64, text: Seq<char>) -> MessageView {
    MessageView { id, contents: ContentsView::Result(text) }
}

/// The notice that ends a session.
pub open spec fn closed_message() -> MessageView {
    MessageView { id: 0, contents: ContentsView::Closed }
}

/// The content sent to a self-hosted IDE once it is accepted.
pub open spec fn client_html_message(html: Seq<char>) -> MessageView {
    MessageView { id: 0, contents: ContentsView::ClientHtml(html) }
}

pub open spec fn unexpected_message_text(c: ContentsView) -> Seq<char> {
    "Unexpected message "@ + variant_name(c)
}

pub open spec fn invalid_ide_type_text(t: IdeType) -> Seq<char> {
    "Invalid IDE type: "@ + ide_type_name(t)
}

pub open spec fn launch_failure_text(reason: Seq<char>) -> Seq<char> {
    "Unable to open web browser: "@ + reason
}

pub open spec fn stay(s: HandshakeState) -> TransitionView {
    TransitionView { next: s, outbox: seq![], launch_browser: false }
}

/// The handshake's transition table. `html` is what a self-hosted IDE gets
/// once accepted. Events that do not fit the state change nothing.
pub open spec fn step_spec(s: HandshakeState, e: EventView, html: Seq<char>) -> TransitionView {
    match (s, e) {
        (HandshakeState::AwaitOpened, EventView::InboundClosed) => stay(HandshakeState::Closed),
        (HandshakeState::AwaitOpened, EventView::Received(m)) => match m.contents {
            ContentsView::Opened(IdeType::VSCode(true)) => TransitionView {
                next: HandshakeState::Ready,
                outbox: seq![result_message(m.id, seq![]), client_html_message(html)],
                launch_browser: false,
            },
            ContentsView::Opened(IdeType::VSCode(false)) => TransitionView {
                next: HandshakeState::AwaitLaunch(m.id),
                outbox: seq![],
                launch_browser: true,
            },
            ContentsView::Opened(t) => TransitionView {
                next: HandshakeState::Closed,
                outbox: seq![result_message(m.id, invalid_ide_type_text(t)), closed_message()],
                launch_browser: false,
            },
            c => TransitionView {
                next: HandshakeState::Closed,
                outbox: seq![result_message(m.id, unexpected_message_text(c)), closed_message()],
                launch_browser: false,
            },
        },
        (HandshakeState::AwaitLaunch(id), EventView::LaunchSucceeded) => TransitionView {
            next: HandshakeState::Ready,
            outbox: seq![result_message(id, seq![])],
            launch_browser: false,
        },
        (HandshakeState::AwaitLaunch(id), EventView::LaunchFailed(reason)) => TransitionView {
            next: HandshakeState::Closed,
            outbox: seq![result_message(id, launch_failure_text(reason)), closed_message()],
            launch_browser: false,
        },
        _ => stay(s),
    }
}

/// Whether the handshake has nothing more to do.
pub open spec fn is_terminal(s: HandshakeState) -> bool {
    s is Ready || s is Closed
}

/// A fresh session whose first message is anything but `Opened` answers that
/// message with a `Result` whose text starts with "Unexpected message", then
/// sends `Closed`, and nothing else; the session ends.
pub proof fn lemma_unexpected_first_message(m: MessageView, html: Seq<char>)
    requires
        !(m.contents is Opened),
    ensures
        ({
            let t = step_spec(HandshakeState::AwaitOpened, EventView::Received(m), html);
            &&& t.next == HandshakeState::Closed
            &&& !t.launch_browser
            &&& t.outbox.len() == 2
            &&& t.outbox[0].id == m.id
            &&& t.outbox[0].contents is Result
            &&& "Unexpected message"@.is_prefix_of(t.outbox[0].contents->Result_0)
            &&& t.outbox[1] == closed_message()
        }),
{
    reveal_strlit("Unexpected message");
    reveal_strlit("Unexpected message ");
    assert("Unexpected message"@ =~= unexpected_message_text(m.contents).subrange(0, 18));
}

/// A self-hosted IDE that opens a fresh session gets an empty `Result` for
/// its `Opened` message and then the client content; the session is ready.
pub proof fn lemma_self_hosted_open(id: u64, html: Seq<char>)
    ensures
        step_spec(
            HandshakeState::AwaitOpened,
            EventView::Received(
                MessageView { id, contents: ContentsView::Opened(IdeType::VSCode(true)) },
            ),
            html,
        ) == (TransitionView {
            next: HandshakeState::Ready,
            outbox: seq![result_message(id, seq![]), client_html_message(html)],
            launch_browser: false,
        }),
{
}

/// An IDE that needs an external browser makes the session start one, sending
/// nothing yet; when the launch fails, the `Opened` message is answered with a
/// `Result` whose text starts with "Unable to open web browser", followed by
/// `Closed`, and the session ends.
pub proof fn lemma_browser_launch_failure(id: u64, reason: Seq<char>, html: Seq<char>)
    ensures
        ({
            let t1 = step_spec(
                HandshakeState::AwaitOpened,
                EventView::Received(
                    MessageView { id, contents: ContentsView::Opened(IdeType::VSCode(false)) },
                ),
                html,
            );
            let t2 = step_spec(t1.next, EventView::LaunchFailed(reason), html);
            &&& t1.launch_browser
            &&& t1.outbox.len() == 0
            &&& t2.next == HandshakeState::Closed
            &&& !t2.launch_browser
            &&& t2.outbox.len() == 2
            &&& t2.outbox[0].id == id
            &&& t2.outbox[0].contents is Result
            &&& "Unable to open web browser"@.is_prefix_of(t2.outbox[0].contents->Result_0)
            &&& t2.outbox[1] == closed_message()
        }),
{
    reveal_strlit("Unable to open web browser");
    reveal_strlit("Unable to open web browser: ");
    assert("Unable to open web browser"@ =~= launch_failure_text(reason).subrange(0, 26));
}

/// An IDE that needs an external browser and whose launch succeeds gets an
/// empty `Result` for its `Opened` message; the session is ready.
pub proof fn lemma_browser_launch_success(id: u64, html: Seq<char>)
    ensures
        ({
            let t1 = step_spec(
                HandshakeState::AwaitOpened,
                EventView::Received(
                    MessageView { id, contents: ContentsView::Opened(IdeType::VSCode(false)) },
                ),
                html,
            );
            let t2 = step_spec(t1.next, EventView::LaunchSucceeded, html);
            &&& t2 == (TransitionView {
                next: HandshakeState::Ready,
                outbox: seq![result_message(id, seq![])],
                launch_browser: false,
            })
        }),
{
}

/// An IDE of a kind this broker does not serve gets a `Result` whose text
/// starts with "Invalid IDE type", then `Closed`, and nothing else; the
/// session ends.
pub proof fn lemma_invalid_ide_type(id: u64, ide: IdeType, html: Seq<char>)
    requires
        !(ide is VSCode),
    ensures
        ({
            let t = step_spec(
                HandshakeState::AwaitOpened,
                EventView::Received(MessageView { id, contents: ContentsView::Opened(ide) }),
                html,
            );
            &&& t.next == HandshakeState::Closed
            &&& !t.launch_browser
            &&& t.outbox.len() == 2
            &&& t.outbox[0].id == id
            &&& t.outbox[0].contents is Result
            &&& "Invalid IDE type"@.is_prefix_of(t.outbox[0].contents->Result_0)
            &&& t.outbox[1] == closed_message()
        }),
{
    reveal_strlit("Invalid IDE type");
    reveal_strlit("Invalid IDE type: ");
    assert("Invalid IDE type"@ =~= invalid_ide_type_text(ide).subrange(0, 16));
}

/// A session whose inbound queue closes before any message ends silently.
pub proof fn lemma_inbound_closed_silent(html: Seq<char>)
    ensures
        step_spec(HandshakeState::AwaitOpened, EventView::InboundClosed, html) == stay(
            HandshakeState::Closed,
        ),
{
}

/// Once the handshake is over, no event changes its state or sends anything.
pub proof fn lemma_terminal_is_final(s: HandshakeState, e: EventView, html: Seq<char>)
    requires
        is_terminal(s),
    ensures
        step_spec(s, e, html) == stay(s),
{
}

fn result_with(id: u64, text: String) -> (r: EditorMessage)
    ensures
        r@ == result_message(id, text@),
{
    EditorMessage { id, message: EditorMessageContents::Result(text) }
}

fn closed() -> (r: EditorMessage)
    ensures
        r@ == closed_message(),
{
    EditorMessage { id: 0, message: EditorMessageContents::Closed }
}

fn text_with(prefix: &str, rest: &str) -> (r: String)
    ensures
        r@ == prefix@ + rest@,
{
    let mut s = prefix.to_owned();
    s.append(rest);
    s
}

/// A step that sends `first` and then closes the session.
fn refuse(first: EditorMessage) -> (r: Transition)
    ensures
        r@ == (TransitionView {
            next: HandshakeState::Closed,
            outbox: seq![first@, closed_message()],
            launch_browser: false,
        }),
{
    let mut outbox: Vec<EditorMessage> = Vec::new();
    outbox.push(first);
    outbox.push(closed());
    let r = Transition { next: HandshakeState::Closed, outbox, launch_browser: false };
    assert(r@.outbox =~= seq![first@, closed_message()]);
    r
}

fn silent(next: HandshakeState) -> (r: Transition)
    ensures
        r@ == stay(next),
{
    let r = Transition { next, outbox: Vec::new(), launch_browser: false };
    assert(r@.outbox =~= seq![]);
    r
}

impl HandshakeState {
    /// The state of a session that was just created.
    pub fn new() -> (r: HandshakeState)
        ensures
            r == HandshakeState::AwaitOpened,
    {
        HandshakeState::AwaitOpened
    }

    /// Whether the handshake has nothing more to do.
    pub fn is_done(&self) -> (r: bool)
        ensures
            r == is_terminal(*self),
    {
        match self {
            HandshakeState::Ready | HandshakeState::Closed => true,
            _ => false,
        }
    }

    /// Takes one event. `client_html` is the content that a self-hosted IDE
    /// receives once it is accepted.
    pub fn step(&self, event: HandshakeEvent, client_html: &str) -> (r: Transition)
        ensures
            r@ == step_spec(*self, event@, client_html@),
    {
        match (*self, event) {
            (HandshakeState::AwaitOpened, HandshakeEvent::InboundClosed) => {
                silent(HandshakeState::Closed)
            },
            (HandshakeState::AwaitOpened, HandshakeEvent::Received(m)) => {
                let id = m.id;
                match m.message {
                    EditorMessageContents::Opened(IdeType::VSCode(true)) => {
                        let mut outbox: Vec<EditorMessage> = Vec::new();
                        outbox.push(result_with(id, String::new()));
                        outbox.push(
                            EditorMessage {
                                id: 0,
                                message: EditorMessageContents::ClientHtml(client_html.to_owned()),
                            },
                        );
                        let r = Transition { next: HandshakeState::Ready, outbox, launch_browser: false };
                        assert(r@.outbox =~= seq![result_message(id, seq![]), client_html_message(client_html@)]);
                        r
                    },
                    EditorMessageContents::Opened(IdeType::VSCode(false)) => {
                        let r = Transition {
                            next: HandshakeState::AwaitLaunch(id),
                            outbox: Vec::new(),
                            launch_browser: true,
                        };
                        assert(r@.outbox =~= seq![]);
                        r
                    },
                    EditorMessageContents::Opened(t) => {
                        refuse(result_with(id, text_with("Invalid IDE type: ", t.name())))
                    },
                    c => {
                        refuse(result_with(id, text_with("Unexpected message ", c.variant_name())))
                    },
                }
            },
            (HandshakeState::AwaitLaunch(id), HandshakeEvent::LaunchSucceeded) => {
                let mut outbox: Vec<EditorMessage> = Vec::new();
                outbox.push(result_with(id, String::new()));
                let r = Transition { next: HandshakeState::Ready, outbox, launch_browser: false };
                assert(r@.outbox =~= seq![result_message(id, seq![])]);
                r
            },
            (HandshakeState::AwaitLaunch(id), HandshakeEvent::LaunchFailed(reason)) => {
                refuse(result_with(id, text_with("Unable to open web browser: ", reason.as_str())))
            },
            (s, _) => silent(s),
        }
    }
}

} // verus!
