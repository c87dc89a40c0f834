//! Xmip's side of one connection to an SMB2 server: negotiate the 2.0.2
//! dialect, set up a session with the `NTLMSSP` tokens, connect the tree, then
//! create, write, read, close and list one file on the share. The `NTLMv2`
//! response is the identity capability's (see `ntlmssp.rs`); a server that does
//! not require signing takes the guest logon.
//!
//! A client reads and writes nothing itself. Each operation makes the message
//! to send, and takes what was read in answer to it; an operation of several
//! messages says after each answer what to send next, or what it came to.

use vstd::arithmetic::div_mod::lemma_small_mod;
use vstd::arithmetic::power::pow;
use vstd::prelude::*;

use crate::directory;
use crate::directory::{law_query_reads_back, name_of, names_in};
use crate::error::{agrees, permanent_fault, protocol_error, Fault, TransportError};
use crate::message;
use crate::message::{
    close_request_body, create_fields_in, create_request_body, created_in, data_in, id_at,
    law_close_request_reads_back, law_create_request_reads_back, law_read_request_reads_back,
    law_session_token_reads_back, law_tree_connect_reads_back, law_write_request_reads_back,
    negotiate_request_body, path_in, read_fields_in, read_request_body, session_setup_body,
    token_in, tree_connect_request_body, write_fields_in, write_request_body, FileId,
    FILE_DELETE_ON_CLOSE, FILE_DIRECTORY, FILE_OPEN, FILE_OVERWRITE_IF,
};
use crate::ntlm::{Identity, IdentityView};
use crate::ntlmssp;
use crate::ntlmssp::{
    authentication, buffered, flags_in, identity_in, law_a_negotiate_asks_for_its_flags,
    law_an_authenticate_names_its_identity, negotiation, nonce_in,
};
use crate::text::{
    decimal, hex, join, law_a_hexadecimal_reads_back, number_of, to_decimal, to_hex,
};
use crate::utf16::utf16;
use crate::wire;
use crate::wire::{
    bare_request, law_u16_reads_back, le16, push_bytes, read_view, u16_at, u32_at, Message,
    MessageView,
};

verus! {

/// The largest read or write in one message, well within the negotiated
/// message ceiling.
pub const CHUNK: usize = 1024 * 1024;

/// A failure of this status may pass: the server is briefly busy, or the share
/// not yet up.
pub open spec fn is_transient(status: u32) -> bool {
    status == 0xC000_0203 || status == 0x8000_0011 || status == 0xC000_0235
}

/// The failure a status names.
pub open spec fn status_fault(what: Seq<char>, status: u32) -> Fault {
    Fault {
        message: what + ": "@ + name_of(status) + " (0x"@ + hex(status as nat, 8) + ")"@,
        retryable: is_transient(status),
    }
}

/// The failure a status names; retryable where it is the server briefly busy or
/// a share not yet up.
pub fn status_error(what: &str, status: u32) -> (error: TransportError)
    ensures
        error@ == status_fault(what@, status),
{
    let named = join(&join(what, ": "), directory::status_name(status));
    let text = join(&join(&join(&named, " (0x"), &to_hex(status as u64, 8)), ")");
    if status == 0xC000_0203 || status == 0x8000_0011 || status == 0xC000_0235 {
        TransportError::retryable(text)
    } else {
        TransportError::permanent(text)
    }
}

/// What was read in answer to the message `id`.
pub open spec fn answer_in(read: Option<MessageView>, id: u64) -> Result<MessageView, Fault> {
    match read {
        None => Err(permanent_fault("the peer closed the connection"@)),
        Some(answer) => if answer.message_id == id {
            Ok(answer)
        } else {
            Err(permanent_fault("an answer to another message"@))
        },
    }
}

/// What was read in answer to the message `id`, where its status is success or
/// `allow`.
pub open spec fn accepted(read: Option<MessageView>, id: u64, allow: u32) -> Result<
    MessageView,
    Fault,
> {
    match answer_in(read, id) {
        Err(fault) => Err(fault),
        Ok(answer) => if answer.status == wire::STATUS_SUCCESS || answer.status == allow {
            Ok(answer)
        } else {
            Err(status_fault("the server answered"@, answer.status))
        },
    }
}

/// The state of a client: the ids its messages carry, and the id of the next.
#[verifier::ext_equal]
pub struct ClientView {
    pub session_id: u64,
    pub tree_id: u32,
    pub next_message_id: u64,
}

impl ClientView {
    /// The client once it has taken a message id.
    pub open spec fn next(self) -> ClientView {
        ClientView { next_message_id: (self.next_message_id + 1) as u64, ..self }
    }

    /// The next message, of `command` and with `body`.
    pub open spec fn request(self, command: u16, body: Seq<u8>) -> MessageView {
        MessageView {
            session_id: self.session_id,
            tree_id: self.tree_id,
            ..bare_request(command, self.next_message_id, body)
        }
    }

    /// The id of the message that was sent last.
    pub open spec fn asked(self) -> u64 {
        (self.next_message_id - 1) as u64
    }

    /// What was read in answer to the last message, where it is a success.
    pub open spec fn success(self, read: Option<MessageView>) -> Result<MessageView, Fault> {
        accepted(read, self.asked(), wire::STATUS_SUCCESS)
    }

    /// The id and the length that the answer to a create hands out.
    pub open spec fn opened(self, read: Option<MessageView>) -> Result<(Seq<u8>, u64), Fault> {
        match self.success(read) {
            Ok(answer) => created_in(answer.body),
            Err(fault) => Err(fault),
        }
    }

    /// The id that the answer to a create hands out.
    pub open spec fn handle(self, read: Option<MessageView>) -> Result<Seq<u8>, Fault> {
        match self.opened(read) {
            Ok((id, _)) => Ok(id),
            Err(fault) => Err(fault),
        }
    }
}

/// One connection to a server, as the client sees it.
pub struct Client {
    session_id: u64,
    tree_id: u32,
    next_message_id: u64,
}

impl View for Client {
    type V = ClientView;

    closed spec fn view(&self) -> ClientView {
        ClientView {
            session_id: self.session_id,
            tree_id: self.tree_id,
            next_message_id: self.next_message_id,
        }
    }
}

impl Client {
    fn new() -> (client: Self)
        ensures
            client@ == (ClientView { session_id: 0, tree_id: 0, next_message_id: 0 }),
    {
        Client { session_id: 0, tree_id: 0, next_message_id: 0 }
    }

    /// The client as it stands, to go on with where an operation fails.
    pub fn resumed(&self) -> (client: Client)
        ensures
            client@ == self@,
    {
        Client {
            session_id: self.session_id,
            tree_id: self.tree_id,
            next_message_id: self.next_message_id,
        }
    }

    /// True where there is an id left for another message.
    pub fn can_ask(&self) -> (can: bool)
        ensures
            can == (self@.next_message_id < u64::MAX),
    {
        self.next_message_id < u64::MAX
    }

    fn take_id(&mut self) -> (id: u64)
        requires
            old(self)@.next_message_id < u64::MAX,
        ensures
            id == old(self)@.next_message_id,
            final(self)@ == old(self)@.next(),
    {
        let id = self.next_message_id;
        self.next_message_id = self.next_message_id + 1;
        id
    }

    fn call(&mut self, command: u16, body: Vec<u8>) -> (request: Message)
        requires
            old(self)@.next_message_id < u64::MAX,
        ensures
            request@ == old(self)@.request(command, body@),
            final(self)@ == old(self)@.next(),
    {
        let mut request = Message::request(command, self.take_id(), body);
        request.session_id = self.session_id;
        request.tree_id = self.tree_id;
        request
    }

    /// What was read in answer to the last message, whatever its status.
    fn exchange(&self, read: Option<Message>) -> (answer: Result<Message, TransportError>)
        requires
            self@.next_message_id > 0,
        ensures
            agrees(answer, answer_in(read_view(read), self@.asked())),
    {
        let answer = match Message::expect(read) {
            Ok(answer) => answer,
            Err(error) => return Err(error),
        };
        if answer.message_id != self.next_message_id - 1 {
            return Err(protocol_error("an answer to another message"));
        }
        Ok(answer)
    }

    /// What was read in answer to the last message; a status other than success
    /// or `allow` is the error it names.
    pub fn call_allowing(&self, read: Option<Message>, allow: u32) -> (answer: Result<
        Message,
        TransportError,
    >)
        requires
            self@.next_message_id > 0,
        ensures
            agrees(answer, accepted(read_view(read), self@.asked(), allow)),
    {
        let answer = match self.exchange(read) {
            Ok(answer) => answer,
            Err(error) => return Err(error),
        };
        if answer.status != wire::STATUS_SUCCESS && answer.status != allow {
            return Err(status_error("the server answered", answer.status));
        }
        Ok(answer)
    }

    /// Open `name` as an existing file; [`Client::opened`] takes the answer.
    pub fn open(&mut self, name: &str) -> (request: Message)
        requires
            old(self)@.next_message_id < u64::MAX,
        ensures
            final(self)@ == old(self)@.next(),
            request@ == old(self)@.request(
                wire::CREATE,
                create_request_body(name@, FILE_OPEN, 0),
            ),
    {
        self.call(wire::CREATE, message::create_request(name, FILE_OPEN, 0))
    }

    /// Open `name` as an existing file to be removed when it is closed;
    /// [`Client::handle`] takes the answer.
    pub fn open_to_delete(&mut self, name: &str) -> (request: Message)
        requires
            old(self)@.next_message_id < u64::MAX,
        ensures
            final(self)@ == old(self)@.next(),
            request@ == old(self)@.request(
                wire::CREATE,
                create_request_body(name@, FILE_OPEN, FILE_DELETE_ON_CLOSE),
            ),
    {
        self.call(wire::CREATE, message::create_request(name, FILE_OPEN, FILE_DELETE_ON_CLOSE))
    }

    /// Create `name`, replacing it if it is there; [`Client::handle`] takes the
    /// answer.
    pub fn create(&mut self, name: &str) -> (request: Message)
        requires
            old(self)@.next_message_id < u64::MAX,
        ensures
            final(self)@ == old(self)@.next(),
            request@ == old(self)@.request(
                wire::CREATE,
                create_request_body(name@, FILE_OVERWRITE_IF, 0),
            ),
    {
        self.call(wire::CREATE, message::create_request(name, FILE_OVERWRITE_IF, 0))
    }

    /// Open the share's root directory; [`Client::handle`] takes the answer.
    pub fn open_root(&mut self) -> (request: Message)
        requires
            old(self)@.next_message_id < u64::MAX,
        ensures
            final(self)@ == old(self)@.next(),
            request@ == old(self)@.request(
                wire::CREATE,
                create_request_body(Seq::empty(), FILE_OPEN, FILE_DIRECTORY),
            ),
    {
        proof {
            reveal_strlit("");
            assert(""@ =~= Seq::<char>::empty());
        }
        self.call(wire::CREATE, message::create_request("", FILE_OPEN, FILE_DIRECTORY))
    }

    /// The file that was opened, and its length.
    pub fn opened(&self, read: Option<Message>) -> (opened: Result<(FileId, u64), TransportError>)
        requires
            self@.next_message_id > 0,
        ensures
            agrees(opened, self@.opened(read_view(read))),
    {
        match self.call_allowing(read, wire::STATUS_SUCCESS) {
            Ok(answer) => message::created(&answer.body),
            Err(error) => Err(error),
        }
    }

    /// The file or directory that was opened or created.
    pub fn handle(&self, read: Option<Message>) -> (id: Result<FileId, TransportError>)
        requires
            self@.next_message_id > 0,
        ensures
            agrees(id, self@.handle(read_view(read))),
    {
        match self.opened(read) {
            Ok((id, _)) => Ok(id),
            Err(error) => Err(error),
        }
    }

    /// Close `id`; [`Client::closed`] takes the answer.
    pub fn close(&mut self, id: FileId) -> (request: Message)
        requires
            old(self)@.next_message_id < u64::MAX,
        ensures
            final(self)@ == old(self)@.next(),
            request@ == old(self)@.request(wire::CLOSE, close_request_body(id@)),
    {
        self.call(wire::CLOSE, message::close_request(id))
    }

    /// The server closed the file.
    pub fn closed(&self, read: Option<Message>) -> (closed: Result<(), TransportError>)
        requires
            self@.next_message_id > 0,
        ensures
            match (closed, self@.success(read_view(read))) {
                (Ok(_), Ok(_)) => true,
                (Err(error), Err(fault)) => error@ == fault,
                _ => false,
            },
    {
        match self.call_allowing(read, wire::STATUS_SUCCESS) {
            Ok(_) => Ok(()),
            Err(error) => Err(error),
        }
    }

    /// Log off: nothing is read in answer.
    pub fn logoff(self) -> (request: Message)
        requires
            self@.next_message_id < u64::MAX,
        ensures
            request@ == (MessageView {
                session_id: self@.session_id,
                ..bare_request(
                    wire::LOGOFF,
                    self@.next_message_id,
                    seq![4u8, 0u8, 0u8, 0u8],
                )
            }),
    {
        let body: Vec<u8> = vec![4, 0, 0, 0];
        assert(body@ =~= seq![4u8, 0u8, 0u8, 0u8]);
        let mut client = self;
        let mut request = Message::request(wire::LOGOFF, client.take_id(), body);
        request.session_id = client.session_id;
        request
    }
}

/// What an operation of several messages comes to after an answer: the next
/// message to send, or its result.
pub enum Step<M, T> {
    /// Send this, and hand what is read in answer to the operation.
    Ask(M, Message),
    /// The operation is over.
    Done(T),
}

/// What a [`Step`] says, as a mathematical value.
pub enum StepView<M, T> {
    Ask(M, MessageView),
    Done(T),
}

impl<M: View, T: View> View for Step<M, T> {
    type V = StepView<M::V, T::V>;

    open spec fn view(&self) -> StepView<M::V, T::V> {
        match self {
            Step::Ask(operation, request) => StepView::Ask(operation@, request@),
            Step::Done(result) => StepView::Done(result@),
        }
    }
}

/// How far connecting has come: what was asked last.
#[derive(Clone, Copy, Debug, PartialEq, Eq, Structural)]
pub enum Stage {
    Negotiating,
    SettingUp,
    LoggingOn,
    TreeConnecting,
}

/// A connection being set up: negotiate, session setup, logon, tree connect.
pub struct Connecting<'a> {
    client: Client,
    path: String,
    identity: &'a Identity,
    stage: Stage,
}

/// What a [`Connecting`] says, as a mathematical value.
#[verifier::ext_equal]
pub struct ConnectingView {
    pub client: ClientView,
    pub path: Seq<char>,
    pub identity: IdentityView,
    pub stage: Stage,
}

impl<'a> View for Connecting<'a> {
    type V = ConnectingView;

    closed spec fn view(&self) -> ConnectingView {
        ConnectingView {
            client: self.client@,
            path: self.path@,
            identity: self.identity@,
            stage: self.stage,
        }
    }
}

/// Setting up a connection to the tree at `path` as `identity`, and the first
/// message.
pub open spec fn connecting(path: Seq<char>, identity: IdentityView) -> (
    ConnectingView,
    MessageView,
) {
    let client = ClientView { session_id: 0, tree_id: 0, next_message_id: 0 };
    (
        ConnectingView { client: client.next(), path, identity, stage: Stage::Negotiating },
        client.request(wire::NEGOTIATE, negotiate_request_body()),
    )
}

impl ConnectingView {
    /// The connection after the answer to a negotiate.
    pub open spec fn negotiated(self, read: Option<MessageView>) -> Result<
        StepView<ConnectingView, ClientView>,
        Fault,
    > {
        match self.client.success(read) {
            Err(fault) => Err(fault),
            Ok(_) => {
                let body = session_setup_body(false, negotiation());
                Ok(
                    StepView::Ask(
                        ConnectingView {
                            client: self.client.next(),
                            stage: Stage::SettingUp,
                            ..self
                        },
                        bare_request(wire::SESSION_SETUP, self.client.next_message_id, body),
                    ),
                )
            },
        }
    }

    /// The connection after the answer to a session setup: it must carry a
    /// challenge, and its session id is the session's.
    pub open spec fn challenged(self, read: Option<MessageView>) -> Result<
        StepView<ConnectingView, ClientView>,
        Fault,
    > {
        match answer_in(read, self.client.asked()) {
            Err(fault) => Err(fault),
            Ok(answer) => if answer.status != wire::STATUS_MORE_PROCESSING {
                Err(status_fault("the session setup"@, answer.status))
            } else {
                match token_in(answer.body) {
                    Err(fault) => Err(fault),
                    Ok(token) => match nonce_in(token) {
                        Err(fault) => Err(fault),
                        Ok(_) => {
                            let client = ClientView {
                                session_id: answer.session_id,
                                ..self.client
                            };
                            let token = authentication(self.identity);
                            Ok(
                                StepView::Ask(
                                    ConnectingView {
                                        client: client.next(),
                                        stage: Stage::LoggingOn,
                                        ..self
                                    },
                                    client.request(
                                        wire::SESSION_SETUP,
                                        session_setup_body(false, token),
                                    ),
                                ),
                            )
                        },
                    },
                }
            },
        }
    }

    /// The connection after the answer to a logon.
    pub open spec fn logged_on(self, read: Option<MessageView>) -> Result<
        StepView<ConnectingView, ClientView>,
        Fault,
    > {
        match self.client.success(read) {
            Err(fault) => Err(fault),
            Ok(_) => Ok(
                StepView::Ask(
                    ConnectingView {
                        client: self.client.next(),
                        stage: Stage::TreeConnecting,
                        ..self
                    },
                    self.client.request(wire::TREE_CONNECT, tree_connect_request_body(self.path)),
                ),
            ),
        }
    }

    /// The connection after the answer to a tree connect: its tree id is the
    /// client's from then on.
    pub open spec fn tree_connected(self, read: Option<MessageView>) -> Result<
        StepView<ConnectingView, ClientView>,
        Fault,
    > {
        match self.client.success(read) {
            Err(fault) => Err(fault),
            Ok(answer) => Ok(
                StepView::Done(ClientView { tree_id: answer.tree_id, ..self.client }),
            ),
        }
    }

    /// The connection after what was read in answer to the last message.
    pub open spec fn take(self, read: Option<MessageView>) -> Result<
        StepView<ConnectingView, ClientView>,
        Fault,
    > {
        match self.stage {
            Stage::Negotiating => self.negotiated(read),
            Stage::SettingUp => self.challenged(read),
            Stage::LoggingOn => self.logged_on(read),
            Stage::TreeConnecting => self.tree_connected(read),
        }
    }
}

/// The session setup carries NTLM's messages: a client's first token is a
/// Negotiate that asks for the flags, its second an Authenticate whose buffers
/// hold its domain, its user and its workstation, where they are short enough to
/// be counted; and the session id that came with the challenge is the client's
/// from then on.
pub proof fn law_the_session_setup_carries_ntlm(
    work: ConnectingView,
    read: Option<MessageView>,
    next: ConnectingView,
    request: MessageView,
)
    requires
        work.stage == Stage::Negotiating || work.stage == Stage::SettingUp,
        work.take(read) == Ok::<StepView<ConnectingView, ClientView>, Fault>(
            StepView::Ask(next, request),
        ),
        authentication(work.identity).len() <= 0xFFFF,
    ensures
        request.command == wire::SESSION_SETUP,
        token_in(request.body) matches Ok(token) && if work.stage == Stage::Negotiating {
            token.len() >= 32 && flags_in(token) == Ok::<u32, Fault>(ntlmssp::FLAGS)
        } else {
            &&& buffered(token, 28) == Ok::<Seq<u8>, Fault>(utf16(work.identity.domain))
            &&& buffered(token, 36) == Ok::<Seq<u8>, Fault>(utf16(work.identity.user))
            &&& buffered(token, 44) == Ok::<Seq<u8>, Fault>(utf16(work.identity.workstation))
            &&& identity_in(token) == Ok::<IdentityView, Fault>(work.identity)
        },
        work.stage == Stage::SettingUp ==> {
            &&& read matches Some(answer) && next.client.session_id == answer.session_id
            &&& request.session_id == next.client.session_id
        },
{
    if work.stage == Stage::Negotiating {
        law_a_negotiate_asks_for_its_flags();
        law_session_token_reads_back(false, negotiation());
    } else {
        law_an_authenticate_names_its_identity(work.identity);
        law_session_token_reads_back(false, authentication(work.identity));
    }
}

impl Client {
    /// Set up a session as `identity`, and connect the tree at `share`,
    /// `\\server\share`: the first message, and what takes the answers.
    pub fn connect<'a>(share: String, identity: &'a Identity) -> (started: (
        Connecting<'a>,
        Message,
    ))
        ensures
            started@ == connecting(share@, identity@),
    {
        let mut client = Client::new();
        let request = client.call(wire::NEGOTIATE, message::negotiate_request());
        (Connecting { client, path: share, identity, stage: Stage::Negotiating }, request)
    }
}

impl<'a> Connecting<'a> {
    /// True where there is an id left for another message.
    pub fn can_ask(&self) -> (can: bool)
        ensures
            can == (self@.client.next_message_id < u64::MAX),
    {
        self.client.can_ask()
    }

    /// Take what was read in answer to the last message.
    pub fn take(self, read: Option<Message>) -> (step: Result<
        Step<Connecting<'a>, Client>,
        TransportError,
    >)
        requires
            0 < self@.client.next_message_id,
            self@.stage != Stage::TreeConnecting ==> self@.client.next_message_id < u64::MAX,
        ensures
            agrees(step, self@.take(read_view(read))),
    {
        match self.stage {
            Stage::Negotiating => self.negotiated(read),
            Stage::SettingUp => self.session_setup(read),
            Stage::LoggingOn => self.logged_on(read),
            Stage::TreeConnecting => self.tree_connect(read),
        }
    }

    fn negotiated(self, read: Option<Message>) -> (step: Result<
        Step<Connecting<'a>, Client>,
        TransportError,
    >)
        requires
            0 < self@.client.next_message_id < u64::MAX,
        ensures
            agrees(step, self@.negotiated(read_view(read))),
    {
        if let Err(error) = self.client.call_allowing(read, wire::STATUS_SUCCESS) {
            return Err(error);
        }
        let mut client = self.client;
        let setup = message::session_setup(false, &ntlmssp::negotiate_message());
        let request = Message::request(wire::SESSION_SETUP, client.take_id(), setup);
        let connecting = Connecting {
            client,
            path: self.path,
            identity: self.identity,
            stage: Stage::SettingUp,
        };
        Ok(Step::Ask(connecting, request))
    }

    fn session_setup(self, read: Option<Message>) -> (step: Result<
        Step<Connecting<'a>, Client>,
        TransportError,
    >)
        requires
            0 < self@.client.next_message_id < u64::MAX,
        ensures
            agrees(step, self@.challenged(read_view(read))),
    {
        let challenge = match self.client.exchange(read) {
            Ok(challenge) => challenge,
            Err(error) => return Err(error),
        };
        if challenge.status != wire::STATUS_MORE_PROCESSING {
            return Err(status_error("the session setup", challenge.status));
        }
        let token = match message::session_token(&challenge.body) {
            Ok(token) => token,
            Err(error) => return Err(error),
        };
        if let Err(error) = ntlmssp::challenge_nonce(token) {
            return Err(error);
        }
        let mut client = self.client;
        client.session_id = challenge.session_id;
        let auth = message::session_setup(false, &ntlmssp::authenticate_message(self.identity));
        let request = client.call(wire::SESSION_SETUP, auth);
        let connecting = Connecting {
            client,
            path: self.path,
            identity: self.identity,
            stage: Stage::LoggingOn,
        };
        Ok(Step::Ask(connecting, request))
    }

    fn logged_on(self, read: Option<Message>) -> (step: Result<
        Step<Connecting<'a>, Client>,
        TransportError,
    >)
        requires
            0 < self@.client.next_message_id < u64::MAX,
        ensures
            agrees(step, self@.logged_on(read_view(read))),
    {
        if let Err(error) = self.client.call_allowing(read, wire::STATUS_SUCCESS) {
            return Err(error);
        }
        let mut client = self.client;
        let body = message::tree_connect_request(&self.path);
        let request = client.call(wire::TREE_CONNECT, body);
        let connecting = Connecting {
            client,
            path: self.path,
            identity: self.identity,
            stage: Stage::TreeConnecting,
        };
        Ok(Step::Ask(connecting, request))
    }

    fn tree_connect(self, read: Option<Message>) -> (step: Result<
        Step<Connecting<'a>, Client>,
        TransportError,
    >)
        requires
            0 < self@.client.next_message_id,
        ensures
            agrees(step, self@.tree_connected(read_view(read))),
    {
        match self.client.call_allowing(read, wire::STATUS_SUCCESS) {
            Ok(answer) => {
                let mut client = self.client;
                client.tree_id = answer.tree_id;
                Ok(Step::Done(client))
            },
            Err(error) => Err(error),
        }
    }
}

/// The chunks a write is split into: whole chunks and what is left of `bytes`,
/// one empty chunk where the whole is empty so a zero-length file is still
/// written.
pub open spec fn chunks_of(bytes: Seq<u8>) -> Seq<Seq<u8>>
    decreases bytes.len(),
{
    if bytes.len() <= CHUNK {
        seq![bytes]
    } else {
        seq![bytes.take(CHUNK as int)] + chunks_of(bytes.skip(CHUNK as int))
    }
}

/// The chunks a write is split into, one empty chunk where the whole is empty
/// so a zero-length file is still written.
pub fn split_chunks(bytes: &[u8]) -> (chunks: Vec<&[u8]>)
    ensures
        chunks.deep_view() == chunks_of(bytes@),
{
    let mut chunks: Vec<&[u8]> = Vec::new();
    let mut at: usize = 0;
    let ghost whole = bytes@;
    proof {
        assert(whole.skip(0) =~= whole);
        assert(chunks.deep_view() + chunks_of(whole) =~= chunks_of(whole));
    }
    while bytes.len() - at > CHUNK
        invariant
            whole == bytes@,
            at <= bytes@.len(),
            chunks.deep_view() + chunks_of(whole.skip(at as int)) == chunks_of(whole),
        decreases bytes@.len() - at,
    {
        let ghost before = chunks.deep_view();
        let chunk = &bytes[at..at + CHUNK];
        chunks.push(chunk);
        proof {
            let left = whole.skip(at as int);
            let piece = left.take(CHUNK as int);
            assert(chunk@ =~= piece);
            assert(chunk.deep_view() =~= chunk@);
            assert(chunks.deep_view() =~= before.push(piece));
            assert(left.skip(CHUNK as int) =~= whole.skip(at + CHUNK));
            let rest = chunks_of(whole.skip(at + CHUNK));
            assert(before + (seq![piece] + rest) =~= before.push(piece) + rest);
        }
        at = at + CHUNK;
    }
    let ghost before = chunks.deep_view();
    let chunk = &bytes[at..bytes.len()];
    chunks.push(chunk);
    proof {
        let left = whole.skip(at as int);
        assert(chunk@ =~= left);
        assert(chunk.deep_view() =~= chunk@);
        assert(chunks.deep_view() =~= before.push(left));
        assert(before + seq![left] =~= before.push(left));
    }
    chunks
}

/// A file being written, a chunk per message.
pub struct Writing<'a> {
    client: Client,
    id: FileId,
    chunks: Vec<&'a [u8]>,
    at: usize,
    offset: u64,
}

/// What a [`Writing`] says, as a mathematical value: the chunks that are not
/// known to be written, the one sent last first, and where that one goes.
#[verifier::ext_equal]
pub struct WritingView {
    pub client: ClientView,
    pub id: Seq<u8>,
    pub chunks: Seq<Seq<u8>>,
    pub offset: u64,
}

impl<'a> View for Writing<'a> {
    type V = WritingView;

    closed spec fn view(&self) -> WritingView {
        WritingView {
            client: self.client@,
            id: self.id@,
            chunks: self.chunks.deep_view().skip(self.at as int),
            offset: self.offset,
        }
    }
}

/// Writing `chunks` to `id` from `offset` on, and the message with the first.
pub open spec fn writing(
    client: ClientView,
    id: Seq<u8>,
    chunks: Seq<Seq<u8>>,
    offset: u64,
) -> (WritingView, MessageView) {
    (
        WritingView { client: client.next(), id, chunks, offset },
        client.request(wire::WRITE, write_request_body(id, offset, chunks[0])),
    )
}

/// The bytes of all of `chunks`.
pub open spec fn total(chunks: Seq<Seq<u8>>) -> nat
    decreases chunks.len(),
{
    if chunks.len() == 0 {
        0
    } else {
        chunks[0].len() + total(chunks.drop_first())
    }
}

impl WritingView {
    /// A message was sent, there is a chunk to be written, and where the chunks
    /// end is counted in eight bytes.
    pub open spec fn valid(self) -> bool {
        &&& 0 < self.client.next_message_id
        &&& 0 < self.chunks.len()
        &&& self.offset + total(self.chunks) <= u64::MAX
    }

    /// The write after what was read in answer to a chunk: the server must have
    /// written the whole of it.
    pub open spec fn take(self, read: Option<MessageView>) -> Result<
        StepView<WritingView, ClientView>,
        Fault,
    > {
        match self.client.success(read) {
            Err(fault) => Err(fault),
            Ok(answer) => {
                let written = u32_at(answer.body, 4);
                let count = self.chunks[0].len();
                if written != count {
                    Err(
                        permanent_fault(
                            "the server wrote "@ + decimal(written as nat) + " of "@ + decimal(
                                count,
                            ) + " bytes"@,
                        ),
                    )
                } else if self.chunks.len() == 1 {
                    Ok(StepView::Done(self.client))
                } else {
                    let (next, request) = writing(
                        self.client,
                        self.id,
                        self.chunks.drop_first(),
                        (self.offset + written) as u64,
                    );
                    Ok(StepView::Ask(next, request))
                }
            },
        }
    }
}

impl Client {
    /// Write `bytes` to `id` from the start, a chunk per message: the first
    /// message, and what takes the answers.
    pub fn write_all<'a>(self, id: FileId, bytes: &'a [u8]) -> (started: (Writing<'a>, Message))
        requires
            self@.next_message_id < u64::MAX,
        ensures
            started@ == writing(self@, id@, chunks_of(bytes@), 0),
            started.0.wf(),
    {
        let chunks = split_chunks(bytes);
        let mut client = self;
        proof {
            lemma_total(bytes@);
            assert(bytes@.len() == bytes.len());
            assert(chunks.deep_view().skip(0) =~= chunks.deep_view());
            assert(chunks.deep_view()[0] == chunks@[0].deep_view());
            assert(chunks@[0].deep_view() =~= chunks@[0]@);
        }
        let request = client.call(wire::WRITE, message::write_request(id, 0, chunks[0]));
        (Writing { client, id, chunks, at: 0, offset: 0 }, request)
    }
}

proof fn lemma_total(bytes: Seq<u8>)
    ensures
        total(chunks_of(bytes)) == bytes.len(),
        chunks_of(bytes).len() > 0,
    decreases bytes.len(),
{
    let chunks = chunks_of(bytes);
    reveal_with_fuel(total, 2);
    if bytes.len() > CHUNK {
        lemma_total(bytes.skip(CHUNK as int));
        assert(chunks.drop_first() =~= chunks_of(bytes.skip(CHUNK as int)));
    }
}

impl<'a> Writing<'a> {
    /// A chunk is on its way.
    pub closed spec fn wf(&self) -> bool {
        &&& self.at < self.chunks@.len()
        &&& self@.valid()
    }

    /// The client as it stands, to go on with where the operation fails.
    pub fn resumed(&self) -> (client: Client)
        ensures
            client@ == self@.client,
    {
        self.client.resumed()
    }

    /// True where there is an id left for another message.
    pub fn can_ask(&self) -> (can: bool)
        ensures
            can == (self@.client.next_message_id < u64::MAX),
    {
        self.client.can_ask()
    }

    /// Take what was read in answer to the last chunk.
    pub fn take(self, read: Option<Message>) -> (step: Result<
        Step<Writing<'a>, Client>,
        TransportError,
    >)
        requires
            self.wf(),
            self@.chunks.len() > 1 ==> self@.client.next_message_id < u64::MAX,
        ensures
            agrees(step, self@.take(read_view(read))),
            step matches Ok(Step::Ask(next, _)) ==> next.wf(),
    {
        let ghost model = self@;
        let ghost whole = self.chunks.deep_view();
        let answer = match self.client.call_allowing(read, wire::STATUS_SUCCESS) {
            Ok(answer) => answer,
            Err(error) => return Err(error),
        };
        let written = message::written(&answer.body);
        let at = self.at;
        let chunk = self.chunks[at];
        proof {
            assert(model.chunks[0] == whole[at as int]);
            assert(whole[at as int] == chunk.deep_view());
            assert(chunk.deep_view() =~= chunk@);
            assert(model.chunks.drop_first() =~= whole.skip(at + 1));
        }
        if written as usize != chunk.len() {
            let count = join("the server wrote ", &to_decimal(written as u64));
            let due = join(&join(&count, " of "), &to_decimal(chunk.len() as u64));
            return Err(TransportError::permanent(join(&due, " bytes")));
        }
        let mut client = self.client;
        if self.chunks.len() - at == 1 {
            return Ok(Step::Done(client));
        }
        let offset = self.offset + written as u64;
        let next = self.chunks[at + 1];
        proof {
            assert(whole.skip(at + 1)[0] == whole[at + 1]);
            assert(whole[at + 1] == next.deep_view());
            assert(next.deep_view() =~= next@);
        }
        let request = client.call(wire::WRITE, message::write_request(self.id, offset, next));
        let writing = Writing {
            client,
            id: self.id,
            chunks: self.chunks,
            at: at + 1,
            offset,
        };
        assert(writing@.chunks =~= whole.skip(at + 1));
        Ok(Step::Ask(writing, request))
    }
}

/// A file being read, a chunk per message.
pub struct Reading {
    client: Client,
    id: FileId,
    length: u64,
    bytes: Vec<u8>,
}

/// What a [`Reading`] says, as a mathematical value: `bytes` were read of a
/// file `length` long.
#[verifier::ext_equal]
pub struct ReadingView {
    pub client: ClientView,
    pub id: Seq<u8>,
    pub length: u64,
    pub bytes: Seq<u8>,
}

impl View for Reading {
    type V = ReadingView;

    closed spec fn view(&self) -> ReadingView {
        ReadingView {
            client: self.client@,
            id: self.id@,
            length: self.length,
            bytes: self.bytes@,
        }
    }
}

/// Reading on where `bytes` of `length` were read: the next chunk to ask for,
/// or all that there is.
pub open spec fn reading(client: ClientView, id: Seq<u8>, length: u64, bytes: Seq<u8>) -> StepView<
    ReadingView,
    (ClientView, Seq<u8>),
> {
    if bytes.len() < length {
        let want = if length - bytes.len() < CHUNK {
            (length - bytes.len()) as u32
        } else {
            CHUNK as u32
        };
        StepView::Ask(
            ReadingView { client: client.next(), id, length, bytes },
            client.request(wire::READ, read_request_body(id, bytes.len() as u64, want)),
        )
    } else {
        StepView::Done((client, bytes))
    }
}

impl ReadingView {
    /// The read after what was read in answer to a chunk: an empty chunk ends
    /// it.
    pub open spec fn take(self, read: Option<MessageView>) -> Result<
        StepView<ReadingView, (ClientView, Seq<u8>)>,
        Fault,
    > {
        match self.client.success(read) {
            Err(fault) => Err(fault),
            Ok(answer) => match data_in(answer.body) {
                Err(fault) => Err(fault),
                Ok(data) => if data.len() == 0 {
                    Ok(StepView::Done((self.client, self.bytes)))
                } else {
                    Ok(reading(self.client, self.id, self.length, self.bytes + data))
                },
            },
        }
    }
}

impl Client {
    /// Read `length` bytes of `id` from the start, a chunk per message: the
    /// first message and what takes the answers, or no bytes where there are
    /// none.
    pub fn read_all(self, id: FileId, length: u64) -> (step: Step<Reading, (Client, Vec<u8>)>)
        requires
            length > 0 ==> self@.next_message_id < u64::MAX,
        ensures
            step@ == reading(self@, id@, length, Seq::empty()),
    {
        let none: Vec<u8> = Vec::new();
        assert(none@ =~= Seq::<u8>::empty());
        self.read_on(id, length, none)
    }

    fn read_on(self, id: FileId, length: u64, bytes: Vec<u8>) -> (step: Step<
        Reading,
        (Client, Vec<u8>),
    >)
        requires
            bytes@.len() < length ==> self@.next_message_id < u64::MAX,
        ensures
            step@ == reading(self@, id@, length, bytes@),
    {
        let offset = bytes.len() as u64;
        if offset >= length {
            return Step::Done((self, bytes));
        }
        let want: u32 = if length - offset < CHUNK as u64 {
            (length - offset) as u32
        } else {
            CHUNK as u32
        };
        let mut client = self;
        let request = client.call(wire::READ, message::read_request(id, offset, want));
        Step::Ask(Reading { client, id, length, bytes }, request)
    }
}

impl Reading {
    /// The client as it stands, to go on with where the operation fails.
    pub fn resumed(&self) -> (client: Client)
        ensures
            client@ == self@.client,
    {
        self.client.resumed()
    }

    /// True where there is an id left for another message.
    pub fn can_ask(&self) -> (can: bool)
        ensures
            can == (self@.client.next_message_id < u64::MAX),
    {
        self.client.can_ask()
    }

    /// Take what was read in answer to the last chunk.
    pub fn take(self, read: Option<Message>) -> (step: Result<
        Step<Reading, (Client, Vec<u8>)>,
        TransportError,
    >)
        requires
            0 < self@.client.next_message_id < u64::MAX,
        ensures
            agrees(step, self@.take(read_view(read))),
    {
        let answer = match self.client.call_allowing(read, wire::STATUS_SUCCESS) {
            Ok(answer) => answer,
            Err(error) => return Err(error),
        };
        let data = match message::read_data(&answer.body) {
            Ok(data) => data,
            Err(error) => return Err(error),
        };
        let client = self.client;
        let mut bytes = self.bytes;
        if data.len() == 0 {
            return Ok(Step::Done((client, bytes)));
        }
        push_bytes(&mut bytes, &data);
        Ok(client.read_on(self.id, self.length, bytes))
    }
}

/// The names of a listing that are files: not `.` and not `..`.
pub open spec fn visible(names: Seq<Seq<char>>) -> Seq<Seq<char>>
    decreases names.len(),
{
    if names.len() == 0 {
        names
    } else if names.last() == "."@ || names.last() == ".."@ {
        visible(names.drop_last())
    } else {
        visible(names.drop_last()).push(names.last())
    }
}

/// The names that a share lists.
pub struct Names {
    pub names: Vec<String>,
}

impl View for Names {
    type V = Seq<Seq<char>>;

    open spec fn view(&self) -> Seq<Seq<char>> {
        self.names.deep_view()
    }
}

fn to_visible(names: Vec<String>) -> (listed: Names)
    ensures
        listed@ == visible(names.deep_view()),
{
    let mut kept: Vec<String> = Vec::new();
    let mut at: usize = 0;
    let ghost model = names.deep_view();
    assert(model.take(0) =~= Seq::empty());
    assert(kept.deep_view() =~= Seq::empty());
    while at < names.len()
        invariant
            model == names.deep_view(),
            at <= names@.len(),
            kept.deep_view() == visible(model.take(at as int)),
        decreases names@.len() - at,
    {
        let ghost before = kept.deep_view();
        let ghost upto = model.take(at + 1);
        proof {
            assert(upto.drop_last() =~= model.take(at as int));
            assert(upto.last() == names@[at as int]@);
        }
        let hidden = names[at] == ".".to_owned() || names[at] == "..".to_owned();
        if !hidden {
            kept.push(names[at].clone());
            assert(kept.deep_view() =~= before.push(upto.last()));
        }
        at = at + 1;
    }
    assert(model.take(model.len() as int) =~= model);
    Names { names: kept }
}

/// How far a listing has come: what was asked last.
enum Query {
    OpeningRoot,
    Querying(FileId),
    ClosingRoot(Message),
}

/// What was asked last of a listing, with the root that is open and the answer
/// that was given.
#[verifier::ext_equal]
pub enum QueryView {
    OpeningRoot,
    Querying(Seq<u8>),
    ClosingRoot(MessageView),
}

/// A listing being made: open the root, query it, close it.
pub struct Listing {
    client: Client,
    pattern: String,
    query: Query,
}

/// What a [`Listing`] says, as a mathematical value.
#[verifier::ext_equal]
pub struct ListingView {
    pub client: ClientView,
    pub pattern: Seq<char>,
    pub query: QueryView,
}

impl View for Listing {
    type V = ListingView;

    closed spec fn view(&self) -> ListingView {
        ListingView {
            client: self.client@,
            pattern: self.pattern@,
            query: match self.query {
                Query::OpeningRoot => QueryView::OpeningRoot,
                Query::Querying(root) => QueryView::Querying(root@),
                Query::ClosingRoot(answer) => QueryView::ClosingRoot(answer@),
            },
        }
    }
}

/// Listing what matches `pattern`, and the first message.
pub open spec fn querying(client: ClientView, pattern: Seq<char>) -> (ListingView, MessageView) {
    (
        ListingView { client: client.next(), pattern, query: QueryView::OpeningRoot },
        client.request(
            wire::CREATE,
            create_request_body(Seq::empty(), FILE_OPEN, FILE_DIRECTORY),
        ),
    )
}

/// The names in the answer to a query: none where it says that there are no
/// more files.
pub open spec fn listed_in(answer: MessageView) -> Result<Seq<Seq<char>>, Fault> {
    if answer.status == wire::STATUS_NO_MORE_FILES {
        Ok(Seq::empty())
    } else {
        match names_in(answer.body) {
            Ok(names) => Ok(visible(names)),
            Err(fault) => Err(fault),
        }
    }
}

impl ListingView {
    /// The listing after what was read in answer to the last message.
    pub open spec fn take(self, read: Option<MessageView>) -> Result<
        StepView<ListingView, (ClientView, Seq<Seq<char>>)>,
        Fault,
    > {
        match self.query {
            QueryView::OpeningRoot => match self.client.handle(read) {
                Err(fault) => Err(fault),
                Ok(root) => Ok(
                    StepView::Ask(
                        ListingView {
                            client: self.client.next(),
                            query: QueryView::Querying(root),
                            ..self
                        },
                        self.client.request(
                            wire::QUERY_DIRECTORY,
                            directory::request_body(root, self.pattern),
                        ),
                    ),
                ),
            },
            QueryView::Querying(root) => match accepted(
                read,
                self.client.asked(),
                wire::STATUS_NO_MORE_FILES,
            ) {
                Err(fault) => Err(fault),
                Ok(answer) => Ok(
                    StepView::Ask(
                        ListingView {
                            client: self.client.next(),
                            query: QueryView::ClosingRoot(answer),
                            ..self
                        },
                        self.client.request(wire::CLOSE, close_request_body(root)),
                    ),
                ),
            },
            QueryView::ClosingRoot(answer) => match self.client.success(read) {
                Err(fault) => Err(fault),
                Ok(_) => match listed_in(answer) {
                    Ok(names) => Ok(StepView::Done((self.client, names))),
                    Err(fault) => Err(fault),
                },
            },
        }
    }
}

impl Client {
    /// The names on the share that match `pattern`, `.` and `..` left out: the
    /// first message, and what takes the answers.
    pub fn list(self, pattern: &str) -> (started: (Listing, Message))
        requires
            self@.next_message_id < u64::MAX,
        ensures
            started@ == querying(self@, pattern@),
    {
        let mut client = self;
        let request = client.open_root();
        (Listing { client, pattern: pattern.to_owned(), query: Query::OpeningRoot }, request)
    }
}

impl Listing {
    /// The client as it stands, to go on with where the operation fails.
    pub fn resumed(&self) -> (client: Client)
        ensures
            client@ == self@.client,
    {
        self.client.resumed()
    }

    /// True where there is an id left for another message.
    pub fn can_ask(&self) -> (can: bool)
        ensures
            can == (self@.client.next_message_id < u64::MAX),
    {
        self.client.can_ask()
    }

    /// Take what was read in answer to the last message.
    pub fn take(self, read: Option<Message>) -> (step: Result<
        Step<Listing, (Client, Names)>,
        TransportError,
    >)
        requires
            0 < self@.client.next_message_id,
            !(self@.query is ClosingRoot) ==> self@.client.next_message_id < u64::MAX,
        ensures
            agrees(step, self@.take(read_view(read))),
    {
        let mut client = self.client;
        match self.query {
            Query::OpeningRoot => {
                let root = match client.handle(read) {
                    Ok(root) => root,
                    Err(error) => return Err(error),
                };
                let body = directory::request(root, &self.pattern);
                let request = client.call(wire::QUERY_DIRECTORY, body);
                let query = Query::Querying(root);
                Ok(Step::Ask(Listing { client, pattern: self.pattern, query }, request))
            },
            Query::Querying(root) => {
                let answer = match client.call_allowing(read, wire::STATUS_NO_MORE_FILES) {
                    Ok(answer) => answer,
                    Err(error) => return Err(error),
                };
                let request = client.close(root);
                let query = Query::ClosingRoot(answer);
                Ok(Step::Ask(Listing { client, pattern: self.pattern, query }, request))
            },
            Query::ClosingRoot(answer) => {
                if let Err(error) = client.closed(read) {
                    return Err(error);
                }
                if answer.status == wire::STATUS_NO_MORE_FILES {
                    let names = Names { names: Vec::new() };
                    assert(names@ =~= Seq::empty());
                    return Ok(Step::Done((client, names)));
                }
                match directory::names(&answer.body) {
                    Ok(names) => Ok(Step::Done((client, to_visible(names)))),
                    Err(error) => Err(error),
                }
            },
        }
    }
}

/// A failure that a status stands for begins with what failed and ends with the
/// status in eight hexadecimal digits; it may pass exactly where the server is
/// briefly busy or the share not yet up.
pub proof fn law_a_status_is_spelled_out(what: Seq<char>, status: u32)
    ensures
        ({
            let fault = status_fault(what, status);
            let end = fault.message.len() as int;
            &&& what.is_prefix_of(fault.message)
            &&& end > what.len() + 12
            &&& number_of(fault.message.subrange(end - 9, end - 1), 16) == status
            &&& fault.message.subrange(end - 12, end - 9) == seq!['(', '0', 'x']
            &&& fault.retryable <==> status == 0xC000_0203 || status == 0x8000_0011 || status
                == 0xC000_0235
        }),
{
    reveal_strlit(": ");
    reveal_strlit(" (0x");
    reveal_strlit(")");
    let message = status_fault(what, status).message;
    let end = message.len() as int;
    assert(message.take(what.len() as int) =~= what);
    law_a_hexadecimal_reads_back(status as nat, 8);
    assert(message.subrange(end - 9, end - 1) =~= hex(status as nat, 8));
    assert(message.subrange(end - 12, end - 9) =~= seq!['(', '0', 'x']);
    assert(pow(16, 8) == 0x1_0000_0000) by {
        reveal(pow);
        reveal_with_fuel(pow, 9);
    }
    lemma_small_mod(status as nat, pow(16, 8) as nat);
}

/// An answer counts only where it is one to the message that was sent last, and
/// its status is a success or the one that is allowed; it is then handed on as
/// it was read. Any other status is the failure.
pub proof fn law_only_a_success_is_an_answer(
    client: ClientView,
    read: Option<MessageView>,
    allow: u32,
)
    requires
        0 < client.next_message_id,
    ensures
        accepted(read, client.asked(), allow) matches Ok(answer) ==> read == Some(answer)
            && answer.message_id + 1 == client.next_message_id && (answer.status == 0
            || answer.status == allow),
        client.success(read) matches Ok(answer) ==> read == Some(answer) && answer.message_id + 1
            == client.next_message_id && answer.status == 0,
        match read {
            None => client.success(read) is Err && accepted(read, client.asked(), allow) is Err,
            Some(answer) => if answer.message_id + 1 != client.next_message_id {
                client.success(read) is Err && accepted(read, client.asked(), allow) is Err
            } else if answer.status == 0 {
                client.success(read) is Ok && accepted(read, client.asked(), allow) is Ok
            } else {
                &&& client.success(read) == Err::<MessageView, Fault>(
                    status_fault("the server answered"@, answer.status),
                )
                &&& answer.status == allow ==> accepted(read, client.asked(), allow) is Ok
                &&& answer.status != allow ==> accepted(read, client.asked(), allow) == Err::<
                    MessageView,
                    Fault,
                >(status_fault("the server answered"@, answer.status))
            },
        },
{
}

/// A client's first message offers the dialect, as the first of a session that
/// has no ids yet; it is to connect the path as the identity that was given.
pub proof fn law_a_connection_starts_from_nothing(path: Seq<char>, identity: IdentityView)
    ensures
        ({
            let (work, request) = connecting(path, identity);
            &&& work.stage == Stage::Negotiating
            &&& work.path == path
            &&& work.identity == identity
            &&& work.client.next_message_id == 1
            &&& request.command == 0
            &&& request.message_id == 0
            &&& request.session_id == 0
            &&& request.tree_id == 0
            &&& request.body.len() == 38
            &&& u16_at(request.body, 2) == 1
            &&& u16_at(request.body, 36) == 0x0202
        }),
{
    let body = negotiate_request_body();
    assert(body.subrange(2, 4) =~= le16(1));
    law_u16_reads_back(body, 2, 1);
    assert(body.subrange(36, 38) =~= le16(0x0202));
    law_u16_reads_back(body, 36, 0x0202);
}

/// A connection goes on from one message to the next only where the server did
/// not refuse it: negotiate, session setup, logon and tree connect are sent in
/// this order, each once the one before was answered with a success, the session
/// setup with a challenge. So no tree is connected where the logon was refused.
/// The session id is the challenge's from then on, and the tree id the tree
/// connect's.
pub proof fn law_a_connection_goes_on_only_with_success(
    work: ConnectingView,
    read: Option<MessageView>,
)
    requires
        0 < work.client.next_message_id < u64::MAX,
    ensures
        work.take(read) is Ok ==> {
            &&& read matches Some(answer)
            &&& answer.message_id + 1 == work.client.next_message_id
            &&& answer.status == if work.stage == Stage::SettingUp {
                0xC000_0016u32
            } else {
                0u32
            }
        },
        match work.take(read) {
            Ok(StepView::Ask(next, request)) => {
                let client = work.client;
                &&& next.path == work.path
                &&& next.identity == work.identity
                &&& next.client.next_message_id == client.next_message_id + 1
                &&& next.client.tree_id == client.tree_id
                &&& request.message_id == client.next_message_id
                &&& request.status == 0
                &&& request.flags == 0
                &&& match work.stage {
                    Stage::Negotiating => next.stage == Stage::SettingUp && request.command == 1
                        && next.client.session_id == client.session_id,
                    Stage::SettingUp => next.stage == Stage::LoggingOn && request.command == 1
                        && next.client.session_id == read->0.session_id && request.session_id
                        == read->0.session_id,
                    Stage::LoggingOn => {
                        &&& next.stage == Stage::TreeConnecting
                        &&& request.command == 3
                        &&& next.client.session_id == client.session_id
                        &&& request.session_id == client.session_id
                        &&& utf16(work.path).len() <= 0xFFFF ==> path_in(request.body) == Ok::<
                            Seq<char>,
                            Fault,
                        >(work.path)
                    },
                    Stage::TreeConnecting => false,
                }
            },
            Ok(StepView::Done(client)) => {
                &&& work.stage == Stage::TreeConnecting
                &&& client.tree_id == read->0.tree_id
                &&& client.session_id == work.client.session_id
                &&& client.next_message_id == work.client.next_message_id
            },
            Err(fault) => match read {
                None => !fault.retryable,
                Some(answer) => if answer.message_id + 1 != work.client.next_message_id {
                    !fault.retryable
                } else if work.stage != Stage::SettingUp {
                    answer.status != 0 && fault == status_fault(
                        "the server answered"@,
                        answer.status,
                    )
                } else if answer.status != 0xC000_0016 {
                    fault == status_fault("the session setup"@, answer.status)
                } else {
                    token_in(answer.body) matches Ok(token) ==> nonce_in(token) is Err
                },
            },
        },
{
    if utf16(work.path).len() <= 0xFFFF {
        law_tree_connect_reads_back(work.path);
    }
}

/// A file is written chunk by chunk: the next chunk is sent to the same file,
/// right behind the one before, once the server says that it wrote the whole of
/// that; it is over with the last. A server that wrote another number of bytes
/// than the chunk has ends it.
pub proof fn law_a_write_goes_on_behind_what_was_written(
    work: WritingView,
    read: Option<MessageView>,
)
    requires
        work.valid(),
        work.client.next_message_id < u64::MAX,
        work.id.len() == 16,
        forall|i: int| 0 <= i < work.chunks.len() ==> (#[trigger] work.chunks[i]).len() <= 0x10_0000,
    ensures
        work.take(read) is Ok <==> {
            &&& read matches Some(answer)
            &&& answer.message_id + 1 == work.client.next_message_id
            &&& answer.status == 0
            &&& u32_at(answer.body, 4) == work.chunks[0].len()
        },
        match work.take(read) {
            Ok(StepView::Ask(next, request)) => {
                &&& work.chunks.len() > 1
                &&& next.id == work.id
                &&& next.chunks == work.chunks.skip(1)
                &&& next.offset == work.offset + work.chunks[0].len()
                &&& next.client.next_message_id == work.client.next_message_id + 1
                &&& request.command == 9
                &&& request.message_id == work.client.next_message_id
                &&& request.session_id == work.client.session_id
                &&& request.tree_id == work.client.tree_id
                &&& write_fields_in(request.body) == Ok::<(Seq<u8>, u64, Seq<u8>), Fault>(
                    (work.id, next.offset, work.chunks[1]),
                )
            },
            Ok(StepView::Done(client)) => work.chunks.len() == 1 && client == work.client,
            Err(_) => true,
        },
{
    if work.chunks.len() > 1 {
        reveal_with_fuel(total, 2);
        assert(work.chunks.skip(1) =~= work.chunks.drop_first());
        let next = (work.offset + work.chunks[0].len()) as u64;
        law_write_request_reads_back(work.id, next, work.chunks[1]);
    }
}

/// A file is read chunk by chunk: each read asks for what follows what was read,
/// as much as is missing and no more than a chunk; what comes is put behind what
/// was read. It is over where the whole length was read, or nothing came, and
/// what was read is handed on whole.
pub proof fn law_a_read_goes_on_behind_what_was_read(
    work: ReadingView,
    read: Option<MessageView>,
)
    requires
        0 < work.client.next_message_id < u64::MAX,
        work.id.len() == 16,
    ensures
        work.take(read) is Ok <==> {
            &&& read matches Some(answer)
            &&& answer.message_id + 1 == work.client.next_message_id
            &&& answer.status == 0
            &&& data_in(answer.body) is Ok
        },
        work.take(read) is Ok ==> {
            let data = data_in(read->0.body)->Ok_0;
            match work.take(read) {
                Ok(StepView::Done((client, bytes))) => {
                    &&& bytes == work.bytes + data
                    &&& data.len() == 0 || bytes.len() >= work.length
                    &&& client == work.client
                },
                Ok(StepView::Ask(next, request)) => {
                    &&& data.len() > 0
                    &&& next.bytes == work.bytes + data
                    &&& next.bytes.len() < work.length
                    &&& next.id == work.id
                    &&& next.length == work.length
                    &&& {
                        let missing = next.length - next.bytes.len();
                        &&& next.client.next_message_id == work.client.next_message_id + 1
                        &&& next.client.session_id == work.client.session_id
                        &&& next.client.tree_id == work.client.tree_id
                        &&& request.command == 8
                        &&& request.message_id == work.client.next_message_id
                        &&& request.session_id == work.client.session_id
                        &&& request.tree_id == work.client.tree_id
                        &&& read_fields_in(request.body) matches Ok((asked, offset, want))
                        &&& asked == next.id
                        &&& offset == next.bytes.len()
                        &&& want == if missing < 0x10_0000 {
                            missing
                        } else {
                            0x10_0000
                        }
                    }
                },
                Err(_) => false,
            }
        },
{
    if work.take(read) is Ok {
        let data = data_in(read->0.body)->Ok_0;
        assert(data.len() == 0 ==> work.bytes + data =~= work.bytes);
        lemma_reading_asks(work.client, work.id, work.length, work.bytes + data);
    }
}

proof fn lemma_reading_asks(client: ClientView, id: Seq<u8>, length: u64, bytes: Seq<u8>)
    requires
        client.next_message_id < u64::MAX,
        id.len() == 16,
    ensures
        reading(client, id, length, bytes) matches StepView::Ask(work, request) ==> {
            let missing = work.length - work.bytes.len();
            &&& work.client.next_message_id == client.next_message_id + 1
            &&& work.client.session_id == client.session_id
            &&& work.client.tree_id == client.tree_id
            &&& request.command == 8
            &&& request.message_id == client.next_message_id
            &&& request.session_id == client.session_id
            &&& request.tree_id == client.tree_id
            &&& read_fields_in(request.body) matches Ok((asked, offset, want))
            &&& asked == work.id
            &&& offset == work.bytes.len()
            &&& want == if missing < 0x10_0000 {
                missing
            } else {
                0x10_0000
            }
        },
{
    if bytes.len() < length {
        let want = if length - bytes.len() < CHUNK {
            (length - bytes.len()) as u32
        } else {
            CHUNK as u32
        };
        law_read_request_reads_back(id, bytes.len() as u64, want);
    }
}

/// A read starts with the file's first byte, and is over at once exactly where
/// there is nothing to read.
pub proof fn law_a_read_starts_from_the_start(client: ClientView, id: Seq<u8>, length: u64)
    requires
        client.next_message_id < u64::MAX,
        id.len() == 16,
    ensures
        match reading(client, id, length, Seq::empty()) {
            StepView::Done((after, bytes)) => length == 0 && bytes.len() == 0 && after == client,
            StepView::Ask(work, request) => {
                &&& length > 0
                &&& work.bytes.len() == 0
                &&& work.length == length
                &&& work.id == id
                &&& {
                    let missing = work.length - work.bytes.len();
                    &&& work.client.next_message_id == client.next_message_id + 1
                    &&& work.client.session_id == client.session_id
                    &&& work.client.tree_id == client.tree_id
                    &&& request.command == 8
                    &&& request.message_id == client.next_message_id
                    &&& request.session_id == client.session_id
                    &&& request.tree_id == client.tree_id
                    &&& read_fields_in(request.body) matches Ok((asked, offset, want))
                    &&& asked == work.id
                    &&& offset == work.bytes.len()
                    &&& want == if missing < 0x10_0000 {
                        missing
                    } else {
                        0x10_0000
                    }
                }
            },
        },
{
    lemma_reading_asks(client, id, length, Seq::empty());
}

/// The chunks of a write are the bytes cut every mebibyte: each holds the bytes
/// from where it begins, and only the last is shorter.
pub proof fn law_chunks_are_cut_every_mebibyte(bytes: Seq<u8>)
    ensures
        ({
            let chunks = chunks_of(bytes);
            &&& chunks.len() > 0
            &&& (chunks.len() - 1) * 0x10_0000 <= bytes.len() <= chunks.len() * 0x10_0000
            &&& chunks.len() > 1 ==> (chunks.len() - 1) * 0x10_0000 < bytes.len()
            &&& forall|i: int|
                0 <= i < chunks.len() ==> #[trigger] chunks[i] == bytes.subrange(
                    i * 0x10_0000,
                    if i + 1 < chunks.len() {
                        (i + 1) * 0x10_0000
                    } else {
                        bytes.len() as int
                    },
                )
        }),
    decreases bytes.len(),
{
    let chunks = chunks_of(bytes);
    if bytes.len() <= CHUNK {
        assert(bytes.subrange(0, bytes.len() as int) =~= bytes);
    } else {
        let rest = bytes.skip(CHUNK as int);
        law_chunks_are_cut_every_mebibyte(rest);
        let others = chunks_of(rest);
        assert forall|i: int| 0 <= i < chunks.len() implies #[trigger] chunks[i] == bytes.subrange(
            i * 0x10_0000,
            if i + 1 < chunks.len() {
                (i + 1) * 0x10_0000
            } else {
                bytes.len() as int
            },
        ) by {
            if i == 0 {
                assert(chunks[0] =~= bytes.subrange(0, 0x10_0000));
            } else {
                assert(chunks[i] == others[i - 1]);
                assert(others[i - 1] =~= chunks[i]);
                let begin = (i - 1) * 0x10_0000;
                let end = if i < others.len() {
                    i * 0x10_0000
                } else {
                    rest.len() as int
                };
                assert(rest.subrange(begin, end) =~= bytes.subrange(
                    begin + 0x10_0000,
                    end + 0x10_0000,
                ));
            }
        }
    }
}

/// The files of a listing are its names without the two that stand for
/// directories, in their order.
pub proof fn law_only_the_directories_are_left_out(names: Seq<Seq<char>>)
    ensures
        visible(names) == names.filter(
            |name: Seq<char>| name != seq!['.'] && name != seq!['.', '.'],
        ),
    decreases names.len(),
{
    let is_file = |name: Seq<char>| name != seq!['.'] && name != seq!['.', '.'];
    reveal_strlit(".");
    reveal_strlit("..");
    assert("."@ =~= seq!['.']);
    assert(".."@ =~= seq!['.', '.']);
    reveal(Seq::filter);
    if names.len() > 0 {
        law_only_the_directories_are_left_out(names.drop_last());
    }
}

/// A share is listed by opening its root, querying that, and closing it again,
/// each once the one before succeeded; a query may also say that there are no
/// more files. What is listed is what the answer to the query names, without the
/// directories.
pub proof fn law_a_listing_opens_queries_and_closes(
    work: ListingView,
    read: Option<MessageView>,
)
    requires
        0 < work.client.next_message_id < u64::MAX,
        utf16(work.pattern).len() <= 0xFFFF,
        work.query matches QueryView::Querying(root) ==> root.len() == 16,
    ensures
        work.take(read) is Ok ==> {
            &&& read matches Some(answer)
            &&& answer.message_id + 1 == work.client.next_message_id
            &&& answer.status == 0 || work.query is Querying && answer.status == 0x8000_0006
        },
        match work.take(read) {
            Ok(StepView::Ask(next, request)) => {
                &&& next.pattern == work.pattern
                &&& next.client.next_message_id == work.client.next_message_id + 1
                &&& request.message_id == work.client.next_message_id
                &&& request.session_id == work.client.session_id
                &&& request.tree_id == work.client.tree_id
                &&& match work.query {
                    QueryView::OpeningRoot => {
                        &&& request.command == 14
                        &&& created_in(read->0.body) matches Ok((root, _)) && next.query
                            == QueryView::Querying(root) && id_at(request.body, 8) == Ok::<
                            Seq<u8>,
                            Fault,
                        >(root)
                    },
                    QueryView::Querying(root) => {
                        &&& request.command == 6
                        &&& next.query == QueryView::ClosingRoot(read->0)
                        &&& id_at(request.body, 8) == Ok::<Seq<u8>, Fault>(root)
                    },
                    QueryView::ClosingRoot(_) => false,
                }
            },
            Ok(StepView::Done((client, names))) => {
                &&& client == work.client
                &&& work.query matches QueryView::ClosingRoot(answer) && if answer.status
                    == 0x8000_0006 {
                    names.len() == 0
                } else {
                    names_in(answer.body) matches Ok(all) && names == all.filter(
                        |name: Seq<char>| name != seq!['.'] && name != seq!['.', '.'],
                    )
                }
            },
            Err(fault) => match read {
                Some(answer) => answer.message_id + 1 == work.client.next_message_id
                    && answer.status != 0 && !(work.query is Querying && answer.status
                    == 0x8000_0006) ==> fault == status_fault(
                    "the server answered"@,
                    answer.status,
                ),
                None => !fault.retryable,
            },
        },
{
    match work.query {
        QueryView::OpeningRoot => {
            if let Ok(root) = work.client.handle(read) {
                law_query_reads_back(root, work.pattern);
            }
        },
        QueryView::Querying(root) => law_close_request_reads_back(root),
        QueryView::ClosingRoot(answer) => {
            if let Ok(all) = names_in(answer.body) {
                law_only_the_directories_are_left_out(all);
            }
        },
    }
}

/// A listing starts by opening the root: a create of no name, of a directory
/// that is there.
pub proof fn law_a_listing_starts_at_the_root(client: ClientView, pattern: Seq<char>)
    requires
        client.next_message_id < u64::MAX,
    ensures
        ({
            let (work, request) = querying(client, pattern);
            &&& work.query is OpeningRoot
            &&& work.pattern == pattern
            &&& request.command == 5
            &&& request.message_id == client.next_message_id
            &&& create_fields_in(request.body) == Ok::<(Seq<char>, u32, u32), Fault>(
                (Seq::empty(), 1, 1),
            )
        }),
{
    assert(utf16(Seq::<char>::empty()).len() == 0);
    law_create_request_reads_back(Seq::empty(), FILE_OPEN, FILE_DIRECTORY);
}

/// A client asks for what it says, in a message of its session and its tree that
/// is numbered next: an open names a file that must be there, an open to delete
/// one that is to go with its close, a create one that is replaced, and the root
/// is a directory of no name.
pub proof fn law_a_client_asks_for_what_it_says(
    client: &mut Client,
    name: &str,
    id: FileId,
    request: Message,
)
    requires
        utf16(name@).len() <= 0xFFFF,
    ensures
        call_ensures(Client::open, (client, name), request) ==> {
            &&& request.command == 5
            &&& request.message_id == old(client)@.next_message_id
            &&& request.session_id == old(client)@.session_id
            &&& request.tree_id == old(client)@.tree_id
            &&& create_fields_in(request.body@) == Ok::<(Seq<char>, u32, u32), Fault>((name@, 1, 0))
        },
        call_ensures(Client::open_to_delete, (client, name), request) ==> {
            &&& request.command == 5
            &&& request.message_id == old(client)@.next_message_id
            &&& request.session_id == old(client)@.session_id
            &&& request.tree_id == old(client)@.tree_id
            &&& create_fields_in(request.body@) == Ok::<(Seq<char>, u32, u32), Fault>(
                (name@, 1, 0x1000),
            )
        },
        call_ensures(Client::create, (client, name), request) ==> {
            &&& request.command == 5
            &&& request.message_id == old(client)@.next_message_id
            &&& request.session_id == old(client)@.session_id
            &&& request.tree_id == old(client)@.tree_id
            &&& create_fields_in(request.body@) == Ok::<(Seq<char>, u32, u32), Fault>((name@, 5, 0))
        },
        call_ensures(Client::open_root, (client,), request) ==> {
            &&& request.command == 5
            &&& request.message_id == old(client)@.next_message_id
            &&& create_fields_in(request.body@) == Ok::<(Seq<char>, u32, u32), Fault>(
                (Seq::empty(), 1, 1),
            )
        },
        call_ensures(Client::close, (client, id), request) ==> {
            &&& request.command == 6
            &&& request.message_id == old(client)@.next_message_id
            &&& id_at(request.body@, 8) == Ok::<Seq<u8>, Fault>(id@)
        },
{
    assert(utf16(Seq::<char>::empty()).len() == 0);
    law_create_request_reads_back(name@, FILE_OPEN, 0);
    law_create_request_reads_back(name@, FILE_OPEN, FILE_DELETE_ON_CLOSE);
    law_create_request_reads_back(name@, FILE_OVERWRITE_IF, 0);
    law_create_request_reads_back(Seq::empty(), FILE_OPEN, FILE_DIRECTORY);
    law_close_request_reads_back(id@);
}

/// What a server answered counts only where it is a success, and then as what it
/// says: the id and the length that a create handed out, and nothing of a close.
pub proof fn law_a_client_takes_only_a_success(
    client: &Client,
    read: Option<Message>,
    opened: Result<(FileId, u64), TransportError>,
    handle: Result<FileId, TransportError>,
    closed: Result<(), TransportError>,
)
    requires
        0 < client@.next_message_id,
    ensures
        call_ensures(Client::opened, (client, read), opened) ==> match opened {
            Ok((id, length)) => {
                &&& read matches Some(answer)
                &&& answer.status == 0
                &&& answer.message_id + 1 == client@.next_message_id
                &&& created_in(answer.body@) == Ok::<(Seq<u8>, u64), Fault>((id@, length))
            },
            Err(_) => read matches Some(answer) ==> answer.status != 0 || answer.message_id + 1
                != client@.next_message_id || created_in(answer.body@) is Err,
        },
        call_ensures(Client::handle, (client, read), handle) ==> match handle {
            Ok(id) => {
                &&& read matches Some(answer)
                &&& answer.status == 0
                &&& answer.message_id + 1 == client@.next_message_id
                &&& created_in(answer.body@) matches Ok((made, _)) && made == id@
            },
            Err(_) => read matches Some(answer) ==> answer.status != 0 || answer.message_id + 1
                != client@.next_message_id || created_in(answer.body@) is Err,
        },
        call_ensures(Client::closed, (client, read), closed) ==> (closed is Ok <==> {
            &&& read matches Some(answer)
            &&& answer.status == 0
            &&& answer.message_id + 1 == client@.next_message_id
        }),
{
    if let Ok((id, length)) = opened {
        assert(opened->Ok_0@ == (id@, length@));
    }
}

} // verus!
