//! The AI chat panel as a state machine: the text being typed, the
//! conversation, whether a reply is awaited, and whether the assistant may
//! see the table. Sending hands the caller the request to make; the reply
//! comes back as an event.
use vstd::prelude::*;
use crate::text::{is_blank, is_blank_chars, chars_of};

verus! {

/// The chat panel.
pub struct ChatState {
    /// The text in the input box.
    pub input: String,
    /// The conversation: `true` for the user's messages, `false` for the
    /// assistant's.
    pub messages: Vec<(bool, String)>,
    /// A reply is awaited.
    pub is_loading: bool,
    /// The assistant may see the table.
    pub table_access: bool,
}

/// The chat panel as values.
pub struct ChatModel {
    pub input: Seq<char>,
    pub messages: Seq<(bool, Seq<char>)>,
    pub is_loading: bool,
    pub table_access: bool,
}

impl View for ChatState {
    type V = ChatModel;

    open spec fn view(&self) -> ChatModel {
        ChatModel {
            input: self.input@,
            messages: self.messages@.map_values(|m: (bool, String)| (m.0, m.1@)),
            is_loading: self.is_loading,
            table_access: self.table_access,
        }
    }
}

/// The panel after the user asks to send: nothing happens when the input
/// is blank or a reply is awaited; otherwise the input becomes the user's
/// message, the box is cleared, a reply is awaited, and the request (the
/// text and whether the table is shared) is made.
pub open spec fn send_step(m: ChatModel) -> (ChatModel, Option<(Seq<char>, bool)>) {
    if is_blank(m.input) || m.is_loading {
        (m, None)
    } else {
        (
            ChatModel {
                input: Seq::empty(),
                messages: m.messages.push((true, m.input)),
                is_loading: true,
                ..m
            },
            Some((m.input, m.table_access)),
        )
    }
}

/// The panel after the reply arrives: it joins the conversation and no
/// reply is awaited any more.
pub open spec fn receive_step(m: ChatModel, reply: Seq<char>) -> ChatModel {
    ChatModel { messages: m.messages.push((false, reply)), is_loading: false, ..m }
}

impl ChatState {
    /// An empty panel.
    pub fn new() -> (s: ChatState)
        ensures
            s@.input == Seq::<char>::empty(),
            s@.messages == Seq::<(bool, Seq<char>)>::empty(),
            !s@.is_loading,
            !s@.table_access,
    {
        let s = ChatState {
            input: String::new(),
            messages: Vec::new(),
            is_loading: false,
            table_access: false,
        };
        assert(s@.messages =~= Seq::<(bool, Seq<char>)>::empty());
        s
    }

    /// The user typed: the input box holds `text`.
    pub fn set_input(&mut self, text: String)
        ensures
            final(self)@ == (ChatModel { input: text@, ..old(self)@ }),
    {
        self.input = text;
    }

    /// The table-access switch was clicked.
    pub fn toggle_access(&mut self)
        ensures
            final(self)@ == (ChatModel { table_access: !old(self)@.table_access, ..old(self)@ }),
    {
        self.table_access = !self.table_access;
    }

    /// The user asks to send; returns the request to make, if any.
    pub fn send(&mut self) -> (req: Option<(String, bool)>)
        ensures
            final(self)@ == send_step(old(self)@).0,
            match req {
                Some((text, access)) => send_step(old(self)@).1 == Some((text@, access)),
                None => send_step(old(self)@).1 is None,
            },
    {
        let blank = is_blank_chars(&chars_of(self.input.as_str()));
        if blank || self.is_loading {
            return None;
        }
        let text = self.input.clone();
        let access = self.table_access;
        let ghost old_msgs = self@.messages;
        self.input = String::new();
        self.messages.push((true, text.clone()));
        self.is_loading = true;
        assert(self@.messages =~= old_msgs.push((true, text@)));
        Some((text, access))
    }

    /// The reply arrived.
    pub fn receive(&mut self, reply: String)
        ensures
            final(self)@ == receive_step(old(self)@, reply@),
    {
        let ghost old_msgs = self@.messages;
        let ghost r = reply@;
        self.messages.push((false, reply));
        self.is_loading = false;
        assert(self@.messages =~= old_msgs.push((false, r)));
    }
}

/// Whether a key press sends the message: Enter without Shift (Shift+Enter
/// breaks the line).
pub fn sends_on_key(key: &str, shift: bool) -> (b: bool)
    ensures
        b == (key@ == "Enter"@ && !shift),
{
    let k = String::from_str(key);
    !shift && k == String::from_str("Enter")
}

/// While a reply is awaited, asking to send again changes nothing and
/// makes no request.
pub proof fn lemma_no_send_while_loading(m: ChatModel)
    requires
        m.is_loading,
    ensures
        send_step(m).0 == m,
        send_step(m).1 is None,
{
}

/// A sent message and its reply join the conversation in that order, and
/// the panel is ready for the next message.
pub proof fn lemma_send_then_receive(m: ChatModel, reply: Seq<char>)
    requires
        send_step(m).1 is Some,
    ensures
        receive_step(send_step(m).0, reply).messages == m.messages.push((true, m.input)).push(
            (false, reply),
        ),
        !receive_step(send_step(m).0, reply).is_loading,
        receive_step(send_step(m).0, reply).input == Seq::<char>::empty(),
        receive_step(send_step(m).0, reply).table_access == m.table_access,
{
}

/// Sending makes a request exactly when the input is not blank and no reply
/// is awaited; the request carries the typed text and the state of the
/// table-access switch, whatever the conversation so far, and the text
/// becomes the user's last message.
pub proof fn lemma_send_request(m: ChatModel)
    ensures
        send_step(m).1 is Some <==> (!is_blank(m.input) && !m.is_loading),
        send_step(m).1 is Some ==> {
            &&& send_step(m).1 == Some((m.input, m.table_access))
            &&& send_step(m).0.messages == m.messages.push((true, m.input))
            &&& send_step(m).0.table_access == m.table_access
            &&& send_step(m).0.is_loading
            &&& send_step(m).0.input.len() == 0
        },
{
}

/// The table-access switch is kept through a whole exchange, so the next
/// request carries it again.
pub proof fn lemma_access_kept(m: ChatModel, reply: Seq<char>, next: Seq<char>)
    requires
        send_step(m).1 is Some,
        !is_blank(next),
    ensures
        send_step(ChatModel { input: next, ..receive_step(send_step(m).0, reply) }).1 == Some(
            (next, m.table_access),
        ),
{
}

} // verus!
