//! The server's side of one connection: what a test puts at the far end, and
//! what a Receive Location that accepts writes directly runs.
//!
//! Not an SMB server. One session answers one client over one share kept in
//! memory: it negotiates the 2.0.2 dialect, sets up a session with the
//! `NTLMSSP` challenge and takes the logon as a guest (the `NTLMv2` check is
//! the identity capability's), connects the one tree, and serves create, write,
//! read, close and query-directory over the files in memory. A file the client
//! wrote is handed up as a Stream when it is closed; a file opened to delete is
//! removed then. One tree, one file at a time.
//!
//! A session reads and writes nothing itself. Whoever holds the connection
//! hands it each message that was read, sends the answer, and then settles what
//! the request comes to.

use vstd::prelude::*;
use vstd::slice::slice_to_vec;

use crate::arrived::{origin, origin_of, Arrived, ArrivedView};
use crate::directory;
use crate::error::{agrees, permanent_fault, Fault, TransportError};
use crate::handles::{Handles, Open, OpenView};
use crate::message;
use crate::message::{
    close_response_body, create_fields_in, create_response_body, file_id, id_at, law_file_ids_differ,
    length32, negotiate_response_body, path_in, read_fields_in, read_response_body,
    session_setup_body, to_length32, token_in, tree_connect_response_body, write_fields_in,
    write_response_body, FileId, FILE_DELETE_ON_CLOSE, FILE_DIRECTORY, FILE_OPEN,
    FILE_OVERWRITE_IF,
};
use crate::ntlmssp::{NEGOTIATE_NTLM, NEGOTIATE_UNICODE};
use crate::share::{listing, Files};
use crate::text::{
    debug_text, hex, join, law_a_hexadecimal_reads_back, past_last, quoted, rest_past_last, to_hex,
};
use crate::wire;
use crate::wire::{law_u64_reads_back, le64, push_u64, read_view, Message, MessageView};

verus! {

/// The share this session serves.
pub const SHARE: &'static str = "xmip";

/// What the client did, as [`Session::settle`] reports it.
#[derive(Clone, Debug, PartialEq, Eq)]
pub enum Event {
    /// The client connected the tree at this share.
    TreeConnected(String),
    /// The client created this name.
    Created(String),
    /// The client wrote this many bytes to this name.
    Written(String, usize),
    /// The client closed a file it had written; here is the Stream.
    Committed(Arrived),
    /// The client read this name.
    Read(String),
    /// The client closed a file opened to delete; it is gone.
    Removed(String),
    /// The client listed the share.
    Listed,
}

/// What an [`Event`] says, as a mathematical value.
#[verifier::ext_equal]
pub enum EventView {
    TreeConnected(Seq<char>),
    Created(Seq<char>),
    Written(Seq<char>, nat),
    Committed(ArrivedView),
    Read(Seq<char>),
    Removed(Seq<char>),
    Listed,
}

impl View for Event {
    type V = EventView;

    open spec fn view(&self) -> EventView {
        match self {
            Event::TreeConnected(share) => EventView::TreeConnected(share@),
            Event::Created(name) => EventView::Created(name@),
            Event::Written(name, count) => EventView::Written(name@, *count as nat),
            Event::Committed(arrived) => EventView::Committed(arrived@),
            Event::Read(name) => EventView::Read(name@),
            Event::Removed(name) => EventView::Removed(name@),
            Event::Listed => EventView::Listed,
        }
    }
}

/// What a request comes to once its answer is sent.
pub enum After {
    /// Nothing to report.
    Nothing,
    /// This is to report.
    Report(Event),
    /// The file of this name is to be removed.
    Remove(String),
    /// The file of this name is to be handed up.
    Commit(String),
}

/// What an [`After`] says, as a mathematical value.
#[verifier::ext_equal]
pub enum AfterView {
    Nothing,
    Report(EventView),
    Remove(Seq<char>),
    Commit(Seq<char>),
}

impl View for After {
    type V = AfterView;

    open spec fn view(&self) -> AfterView {
        match self {
            After::Nothing => AfterView::Nothing,
            After::Report(event) => AfterView::Report(event@),
            After::Remove(name) => AfterView::Remove(name@),
            After::Commit(name) => AfterView::Commit(name@),
        }
    }
}

/// The answer to a request, and what the request comes to once it is sent.
pub struct Reply {
    pub answer: Message,
    pub after: After,
}

/// What a [`Reply`] says, as a mathematical value.
#[verifier::ext_equal]
pub struct ReplyView {
    pub answer: MessageView,
    pub after: AfterView,
}

impl View for Reply {
    type V = ReplyView;

    open spec fn view(&self) -> ReplyView {
        ReplyView { answer: self.answer@, after: self.after@ }
    }
}

/// The state of a session: who is at the far end, the session's id, the share
/// that was connected, the files on it, what is open, and the next handle.
#[verifier::ext_equal]
pub struct SessionView {
    pub peer: Seq<char>,
    pub id: u64,
    pub tree: Seq<char>,
    pub files: Map<Seq<char>, Seq<u8>>,
    pub handles: Map<Seq<u8>, OpenView>,
    pub next_handle: u64,
}

/// One of the options is set.
pub open spec fn has_option(options: u32, option: u32) -> bool {
    options & option != 0
}

/// The bytes under `name`, none where there is no such file.
pub open spec fn content(files: Map<Seq<char>, Seq<u8>>, name: Seq<char>) -> Seq<u8> {
    if files.dom().contains(name) {
        files[name]
    } else {
        Seq::empty()
    }
}

/// `bytes` with `data` at `at`: a gap before it is zeros, and what stood
/// elsewhere stays.
pub open spec fn overwritten(bytes: Seq<u8>, at: nat, data: Seq<u8>) -> Seq<u8> {
    let end = at + data.len();
    Seq::new(
        if bytes.len() < end {
            end
        } else {
            bytes.len()
        },
        |i: int|
            if at <= i < end {
                data[i - at]
            } else if i < bytes.len() {
                bytes[i]
            } else {
                0u8
            },
    )
}

/// `id` was made from a seed before `next`.
pub open spec fn handed_out(id: Seq<u8>, next: u64) -> bool {
    exists|seed: u64| seed < next && id == #[trigger] file_id(seed)
}

impl SessionView {
    /// The files can be listed, and every open id was handed out by the
    /// counter.
    pub open spec fn valid(self) -> bool {
        &&& self.files.dom().finite()
        &&& forall|id: Seq<u8>| #[trigger]
            self.handles.dom().contains(id) ==> handed_out(id, self.next_handle)
    }

    /// The answer to `request` on this session.
    pub open spec fn answer_to(
        self,
        request: MessageView,
        status: u32,
        body: Seq<u8>,
    ) -> MessageView {
        MessageView { session_id: self.id, ..request.answer(status, body) }
    }

    /// The answer and nothing else.
    pub open spec fn just(self, request: MessageView, status: u32, body: Seq<u8>) -> ReplyView {
        ReplyView { answer: self.answer_to(request, status, body), after: AfterView::Nothing }
    }

    /// The answer, and then the report of `event`.
    pub open spec fn report(
        self,
        request: MessageView,
        status: u32,
        body: Seq<u8>,
        event: EventView,
    ) -> ReplyView {
        ReplyView {
            answer: self.answer_to(request, status, body),
            after: AfterView::Report(event),
        }
    }

    /// The answer where there is no such file or no such handle.
    pub open spec fn no_such_file(self, request: MessageView) -> ReplyView {
        self.just(request, wire::STATUS_OBJECT_NAME_NOT_FOUND, Seq::empty())
    }

    /// There is nothing that a create could open.
    pub open spec fn nothing_to_open(self, name: Seq<char>, disposition: u32, options: u32) -> bool {
        !has_option(options, FILE_DIRECTORY) && disposition == FILE_OPEN
            && !self.files.dom().contains(name)
    }

    /// What a create of `name` does.
    pub open spec fn create(
        self,
        request: MessageView,
        name: Seq<char>,
        disposition: u32,
        options: u32,
    ) -> (SessionView, ReplyView) {
        if self.nothing_to_open(name, disposition, options) {
            (self, self.no_such_file(request))
        } else {
            let files = if disposition == FILE_OVERWRITE_IF {
                self.files.insert(name, Seq::empty())
            } else {
                self.files
            };
            let id = file_id(self.next_handle);
            let open = OpenView {
                name,
                written: false,
                delete_on_close: has_option(options, FILE_DELETE_ON_CLOSE),
            };
            let body = create_response_body(id, content(files, name).len() as u64);
            let next = SessionView {
                files,
                handles: self.handles.insert(id, open),
                next_handle: (self.next_handle + 1) as u64,
                ..self
            };
            if has_option(options, FILE_DIRECTORY) {
                (next, self.just(request, wire::STATUS_SUCCESS, body))
            } else {
                (
                    next,
                    self.report(request, wire::STATUS_SUCCESS, body, EventView::Created(name)),
                )
            }
        }
    }

    /// What a write of `data` at `offset` of `id` does.
    pub open spec fn write(
        self,
        request: MessageView,
        id: Seq<u8>,
        offset: u64,
        data: Seq<u8>,
    ) -> (SessionView, ReplyView) {
        if !self.handles.dom().contains(id) {
            (self, self.no_such_file(request))
        } else {
            let open = self.handles[id];
            let bytes = overwritten(content(self.files, open.name), offset as nat, data);
            let next = SessionView {
                files: self.files.insert(open.name, bytes),
                handles: self.handles.insert(id, OpenView { written: true, ..open }),
                ..self
            };
            let body = write_response_body(length32(data.len()));
            let event = EventView::Written(open.name, data.len());
            (next, self.report(request, wire::STATUS_SUCCESS, body, event))
        }
    }

    /// What a read of `length` bytes at `offset` of `id` is answered.
    pub open spec fn read(
        self,
        request: MessageView,
        id: Seq<u8>,
        offset: u64,
        length: u32,
    ) -> ReplyView {
        if !self.handles.dom().contains(id) {
            self.no_such_file(request)
        } else {
            let name = self.handles[id].name;
            let bytes = content(self.files, name);
            if offset >= bytes.len() {
                let body = read_response_body(Seq::empty());
                self.report(request, wire::STATUS_END_OF_FILE, body, EventView::Read(name))
            } else {
                let end = if offset + length <= bytes.len() {
                    offset + length
                } else {
                    bytes.len() as int
                };
                let body = read_response_body(bytes.subrange(offset as int, end));
                self.report(request, wire::STATUS_SUCCESS, body, EventView::Read(name))
            }
        }
    }

    /// What a close of `id` does.
    pub open spec fn close(self, request: MessageView, id: Seq<u8>) -> (SessionView, ReplyView) {
        let answer = self.answer_to(request, wire::STATUS_SUCCESS, close_response_body());
        let after = if !self.handles.dom().contains(id) {
            AfterView::Nothing
        } else if self.handles[id].delete_on_close {
            AfterView::Remove(self.handles[id].name)
        } else if self.handles[id].written {
            AfterView::Commit(self.handles[id].name)
        } else {
            AfterView::Nothing
        };
        (SessionView { handles: self.handles.remove(id), ..self }, ReplyView { answer, after })
    }

    /// What a listing is answered.
    pub open spec fn list(self, request: MessageView) -> ReplyView {
        if self.files == Map::<Seq<char>, Seq<u8>>::empty() {
            self.report(request, wire::STATUS_NO_MORE_FILES, Seq::empty(), EventView::Listed)
        } else {
            let body = directory::response_body(listing(self.files));
            self.report(request, wire::STATUS_SUCCESS, body, EventView::Listed)
        }
    }

    /// The session can carry the request out: a create has a handle to give,
    /// and a written file fits in memory.
    pub open spec fn admits(self, request: MessageView) -> bool {
        if request.command == wire::CREATE {
            match create_fields_in(request.body) {
                Ok((name, disposition, options)) => self.next_handle < u64::MAX
                    || self.nothing_to_open(name, disposition, options),
                Err(_) => true,
            }
        } else if request.command == wire::WRITE {
            match write_fields_in(request.body) {
                Ok((id, offset, data)) => !self.handles.dom().contains(id) || offset + data.len()
                    <= isize::MAX,
                Err(_) => true,
            }
        } else {
            true
        }
    }

    /// What one request after the tree connect does: the state it leaves and
    /// the reply, or why the session is over.
    pub open spec fn serve(self, request: MessageView) -> Result<(SessionView, ReplyView), Fault> {
        if request.command == wire::CREATE {
            match create_fields_in(request.body) {
                Ok((name, disposition, options)) => Ok(
                    self.create(request, name, disposition, options),
                ),
                Err(fault) => Err(fault),
            }
        } else if request.command == wire::WRITE {
            match write_fields_in(request.body) {
                Ok((id, offset, data)) => Ok(self.write(request, id, offset, data)),
                Err(fault) => Err(fault),
            }
        } else if request.command == wire::READ {
            match read_fields_in(request.body) {
                Ok((id, offset, length)) => Ok((self, self.read(request, id, offset, length))),
                Err(fault) => Err(fault),
            }
        } else if request.command == wire::CLOSE {
            match id_at(request.body, 8) {
                Ok(id) => Ok(self.close(request, id)),
                Err(fault) => Err(fault),
            }
        } else if request.command == wire::QUERY_DIRECTORY {
            match id_at(request.body, 8) {
                Ok(_) => Ok((self, self.list(request))),
                Err(fault) => Err(fault),
            }
        } else if request.command == wire::TREE_DISCONNECT {
            Ok((self, self.just(request, wire::STATUS_SUCCESS, seq![4u8, 0u8, 0u8, 0u8])))
        } else {
            Err(
                permanent_fault(
                    "command 0x"@ + hex(request.command as nat, 4) + " after the tree connect"@,
                ),
            )
        }
    }

    /// The state once the answer is sent, and the event to report.
    pub open spec fn settle(self, after: AfterView) -> (SessionView, Option<EventView>) {
        match after {
            AfterView::Nothing => (self, None),
            AfterView::Report(event) => (self, Some(event)),
            AfterView::Remove(name) => (
                SessionView { files: self.files.remove(name), ..self },
                Some(EventView::Removed(name)),
            ),
            AfterView::Commit(name) => (
                self,
                Some(
                    EventView::Committed(
                        ArrivedView {
                            origin_uri: origin_of(self.peer, self.tree, name),
                            bytes: content(self.files, name),
                        },
                    ),
                ),
            ),
        }
    }
}

/// The request that was read, where it is the `command` that was due.
pub open spec fn expected(read: Option<MessageView>, command: u16) -> Result<MessageView, Fault> {
    match read {
        None => Err(permanent_fault("the peer closed the connection"@)),
        Some(request) => if request.command == command {
            Ok(request)
        } else {
            Err(
                permanent_fault(
                    "command 0x"@ + hex(request.command as nat, 4) + " where 0x"@ + hex(
                        command as nat,
                        4,
                    ) + " was due"@,
                ),
            )
        },
    }
}

/// The answer to the negotiate that was read.
pub open spec fn negotiated(read: Option<MessageView>) -> Result<MessageView, Fault> {
    match expected(read, wire::NEGOTIATE) {
        Ok(request) => Ok(request.answer(wire::STATUS_SUCCESS, negotiate_response_body())),
        Err(fault) => Err(fault),
    }
}

/// The session setup that was read, and the token it carries.
pub open spec fn setup_in(read: Option<MessageView>) -> Result<(MessageView, Seq<u8>), Fault> {
    match expected(read, wire::SESSION_SETUP) {
        Ok(request) => match token_in(request.body) {
            Ok(token) => Ok((request, token)),
            Err(fault) => Err(fault),
        },
        Err(fault) => Err(fault),
    }
}

/// The failure a session ends in where the client asked for another share.
pub open spec fn refusal(share: Seq<char>) -> Fault {
    permanent_fault(
        "a tree connect for "@ + debug_text(share) + ", not "@ + debug_text(SHARE@),
    )
}

impl SessionView {
    /// The answer that hands `token`, a challenge, to the client.
    pub open spec fn challenge(self, request: MessageView, token: Seq<u8>) -> MessageView {
        MessageView {
            session_id: self.id,
            ..request.answer(wire::STATUS_MORE_PROCESSING, session_setup_body(true, token))
        }
    }

    /// What the tree connect that was read does: the state it leaves, the
    /// answer, and the failure the session ends in once it is sent.
    pub open spec fn tree_connect(self, read: Option<MessageView>) -> Result<
        (SessionView, MessageView, Option<Fault>),
        Fault,
    > {
        match expected(read, wire::TREE_CONNECT) {
            Err(fault) => Err(fault),
            Ok(request) => match path_in(request.body) {
                Err(fault) => Err(fault),
                Ok(path) => {
                    let share = past_last(path, '\\');
                    if share == SHARE@ {
                        let body = tree_connect_response_body();
                        Ok(
                            (
                                SessionView { tree: share, ..self },
                                MessageView {
                                    tree_id: 1,
                                    ..request.answer(wire::STATUS_SUCCESS, body)
                                },
                                None,
                            ),
                        )
                    } else {
                        Ok(
                            (
                                self,
                                MessageView {
                                    tree_id: 1,
                                    ..request.answer(wire::STATUS_BAD_NETWORK_NAME, Seq::empty())
                                },
                                Some(refusal(share)),
                            ),
                        )
                    }
                },
            },
        }
    }
}

/// One client's worth of server over one share in memory.
pub struct Session {
    peer: String,
    id: u64,
    tree: String,
    files: Files,
    handles: Handles,
    next_handle: u64,
}

impl View for Session {
    type V = SessionView;

    closed spec fn view(&self) -> SessionView {
        SessionView {
            peer: self.peer@,
            id: self.id,
            tree: self.tree@,
            files: self.files@,
            handles: self.handles@,
            next_handle: self.next_handle,
        }
    }
}

/// What was reported, as a mathematical value.
pub open spec fn reported(event: Option<Event>) -> Option<EventView> {
    match event {
        Some(event) => Some(event@),
        None => None,
    }
}

/// `reply` and the state it left are what `expected` names; where it is a
/// failure, the state is as it was.
pub open spec fn replied(
    reply: Result<Reply, TransportError>,
    before: SessionView,
    after: SessionView,
    expected: Result<(SessionView, ReplyView), Fault>,
) -> bool {
    match (reply, expected) {
        (Ok(reply), Ok((next, model))) => reply@ == model && after == next,
        (Err(error), Err(fault)) => error@ == fault && after == before,
        _ => false,
    }
}

impl Session {
    /// The names are in order, no id is handed out twice, and every open id
    /// was handed out by the counter.
    pub closed spec fn wf(&self) -> bool {
        &&& self.files.wf()
        &&& self.handles.wf()
        &&& forall|id: Seq<u8>| #[trigger]
            self@.handles.dom().contains(id) ==> handed_out(id, self.next_handle)
    }

    /// The state of a well-formed session is valid, so that what is stated of
    /// valid states holds of it.
    pub proof fn law_a_session_is_valid(&self)
        requires
            self.wf(),
        ensures
            self@.valid(),
    {
        self.files.law_files_are_finite();
    }

    /// A session with the client at `peer`, before anything was said.
    pub(crate) fn new(peer: String, id: u64) -> (session: Self)
        ensures
            session.wf(),
            session@ == (SessionView {
                peer: peer@,
                id,
                tree: Seq::empty(),
                files: Map::empty(),
                handles: Map::empty(),
                next_handle: 1,
            }),
    {
        let session = Session {
            peer,
            id,
            tree: String::new(),
            files: Files::new(),
            handles: Handles::new(),
            next_handle: 1,
        };
        assert(session.tree@ =~= Seq::<char>::empty());
        session
    }

    /// The request that was read, where it is the `command` that was due.
    pub(crate) fn expect(read: Option<Message>, command: u16) -> (request: Result<Message, TransportError>)
        ensures
            agrees(request, expected(read_view(read), command)),
    {
        let request = match Message::expect(read) {
            Ok(request) => request,
            Err(error) => return Err(error),
        };
        if request.command == command {
            Ok(request)
        } else {
            let found = to_hex(request.command as u64, 4);
            let due = to_hex(command as u64, 4);
            let text = join(&join("command 0x", &found), " where 0x");
            Err(TransportError::permanent(join(&join(&text, &due), " was due")))
        }
    }

    /// Answer the negotiate that was read.
    pub(crate) fn negotiate(read: Option<Message>) -> (answer: Result<Message, TransportError>)
        ensures
            agrees(answer, negotiated(read_view(read))),
    {
        match Session::expect(read, wire::NEGOTIATE) {
            Ok(request) => Ok(request.respond(wire::STATUS_SUCCESS, message::negotiate_response())),
            Err(error) => Err(error),
        }
    }

    /// The session setup that was read, and the token it carries.
    pub(crate) fn session_setup(read: Option<Message>) -> (setup: Result<
        (Message, Vec<u8>),
        TransportError,
    >)
        ensures
            agrees(setup, setup_in(read_view(read))),
    {
        let request = match Session::expect(read, wire::SESSION_SETUP) {
            Ok(request) => request,
            Err(error) => return Err(error),
        };
        let token = match message::session_token(&request.body) {
            Ok(token) => slice_to_vec(token),
            Err(error) => return Err(error),
        };
        Ok((request, token))
    }

    /// What a challenge offers of the flags that the client's first token asks
    /// for, `asked` being what came of reading them: UTF-16 names and NTLM.
    pub fn offered(asked: Result<u32, String>) -> (flags: Result<u32, TransportError>)
        ensures
            match asked {
                Ok(asked) => flags == Ok::<u32, TransportError>(
                    asked & (NEGOTIATE_UNICODE | NEGOTIATE_NTLM),
                ),
                Err(message) => flags matches Err(error) && error@ == permanent_fault(message@),
            },
    {
        match asked {
            Ok(asked) => Ok(asked & (NEGOTIATE_UNICODE | NEGOTIATE_NTLM)),
            Err(message) => Err(TransportError::permanent(message)),
        }
    }

    /// The answer to a session setup that hands the client `token`, a
    /// challenge.
    pub(crate) fn challenge(&self, request: &Message, token: &[u8]) -> (answer: Message)
        ensures
            answer@ == self@.challenge(request@, token@),
    {
        let mut answer = request.respond(
            wire::STATUS_MORE_PROCESSING,
            message::session_setup(true, token),
        );
        answer.session_id = self.id;
        answer
    }

    /// The answer to the session setup that logs the client on, `identified`
    /// being what came of reading its token. The `NTLMv2` response the identity
    /// capability would check is not computed here; the identity is taken and
    /// the logon is a guest.
    pub(crate) fn logon(request: &Message, identified: Result<(), String>) -> (answer: Result<
        Message,
        TransportError,
    >)
        ensures
            agrees(
                answer,
                match identified {
                    Ok(_) => Ok(
                        request@.answer(
                            wire::STATUS_SUCCESS,
                            session_setup_body(true, Seq::empty()),
                        ),
                    ),
                    Err(message) => Err(permanent_fault(message@)),
                },
            ),
    {
        if let Err(message) = identified {
            return Err(TransportError::permanent(message));
        }
        let none: Vec<u8> = Vec::new();
        assert(none@ =~= Seq::<u8>::empty());
        Ok(request.respond(wire::STATUS_SUCCESS, message::session_setup(true, &none)))
    }

    /// Connect the tree that the request that was read names: the answer, and
    /// the failure the session ends in once it is sent, where the client asked
    /// for another share.
    pub(crate) fn tree_connect(&mut self, read: Option<Message>) -> (connected: Result<
        (Message, Option<TransportError>),
        TransportError,
    >)
        requires
            old(self).wf(),
        ensures
            final(self).wf(),
            match (connected, old(self)@.tree_connect(read_view(read))) {
                (Ok((answer, None)), Ok((next, model, None))) => answer@ == model && final(self)@
                    == next,
                (Ok((answer, Some(refusal))), Ok((next, model, Some(fault)))) => answer@ == model
                    && refusal@ == fault && final(self)@ == next,
                (Err(error), Err(fault)) => error@ == fault && final(self)@ == old(self)@,
                _ => false,
            },
    {
        let request = match Session::expect(read, wire::TREE_CONNECT) {
            Ok(request) => request,
            Err(error) => return Err(error),
        };
        let path = match message::tree_connect_path(&request.body) {
            Ok(path) => path,
            Err(error) => return Err(error),
        };
        let share = rest_past_last(&path, '\\');
        if share == SHARE.to_owned() {
            let mut answer = request.respond(
                wire::STATUS_SUCCESS,
                message::tree_connect_response(),
            );
            answer.tree_id = 1;
            self.tree = share;
            Ok((answer, None))
        } else {
            let none: Vec<u8> = Vec::new();
            assert(none@ =~= Seq::<u8>::empty());
            let mut answer = request.respond(wire::STATUS_BAD_NETWORK_NAME, none);
            answer.tree_id = 1;
            let text = join(&join("a tree connect for ", &quoted(&share)), ", not ");
            let refusal = TransportError::permanent(join(&text, &quoted(SHARE)));
            Ok((answer, Some(refusal)))
        }
    }

    /// Serve these files to opens, reads and listings.
    pub fn with_files(self, files: Files) -> (session: Self)
        requires
            self.wf(),
            files.wf(),
        ensures
            session.wf(),
            session@ == (SessionView { files: files@, ..self@ }),
    {
        let mut session = self;
        session.files = files;
        session
    }

    /// What the share holds now, writes included.
    pub fn files(&self) -> (files: &Files)
        requires
            self.wf(),
        ensures
            files.wf(),
            files@ == self@.files,
    {
        &self.files
    }

    /// The share the client connected.
    pub fn tree(&self) -> (tree: &str)
        ensures
            tree@ == self@.tree,
    {
        self.tree.as_str()
    }

    /// True where the session can carry `request` out.
    pub fn admits(&self, request: &Message) -> (admitted: bool)
        requires
            self.wf(),
        ensures
            admitted == self@.admits(request@),
    {
        if request.command == wire::CREATE {
            match message::create_fields(&request.body) {
                Ok((name, disposition, options)) => self.next_handle < u64::MAX || (options
                    & FILE_DIRECTORY == 0 && disposition == FILE_OPEN && !self.files.contains(
                    &name,
                )),
                Err(_) => true,
            }
        } else if request.command == wire::WRITE {
            match message::write_fields(&request.body) {
                Ok((id, offset, data)) => {
                    let most: u64 = isize::MAX as u64;
                    let count: u64 = data.len() as u64;
                    match self.handles.get(&id) {
                        None => true,
                        Some(_) => count <= most && offset <= most - count,
                    }
                },
                Err(_) => true,
            }
        } else {
            true
        }
    }

    fn answer(&self, request: &Message, status: u32, body: Vec<u8>) -> (answer: Message)
        ensures
            answer@ == self@.answer_to(request@, status, body@),
    {
        let mut answer = request.respond(status, body);
        answer.session_id = self.id;
        answer.tree_id = request.tree_id;
        answer
    }

    fn on_create(&mut self, request: &Message) -> (reply: Result<Reply, TransportError>)
        requires
            old(self).wf(),
            request.command == wire::CREATE,
            old(self)@.admits(request@),
        ensures
            final(self).wf(),
            replied(reply, old(self)@, final(self)@, old(self)@.serve(request@)),
    {
        let (name, disposition, options) = match message::create_fields(&request.body) {
            Ok(fields) => fields,
            Err(error) => return Err(error),
        };
        let directory = options & FILE_DIRECTORY != 0;
        if !directory && disposition == FILE_OPEN && !self.files.contains(&name) {
            let answer = self.answer(request, wire::STATUS_OBJECT_NAME_NOT_FOUND, Vec::new());
            return Ok(Reply { answer, after: After::Nothing });
        }
        if disposition == FILE_OVERWRITE_IF {
            self.files.insert(name.clone(), Vec::new());
        }
        let id = FileId::of(self.next_handle);
        let length = match self.files.get(&name) {
            Some(bytes) => bytes.len() as u64,
            None => 0,
        };
        let open = Open {
            name: name.clone(),
            written: false,
            delete_on_close: options & FILE_DELETE_ON_CLOSE != 0,
        };
        let ghost next = self.next_handle;
        proof {
            if self@.handles.dom().contains(id@) {
                let seed = choose|seed: u64| seed < next && id@ == #[trigger] file_id(seed);
                law_file_ids_differ(seed, next);
            }
        }
        self.handles.insert(id, open);
        self.next_handle = self.next_handle + 1;
        proof {
            assert forall|k: Seq<u8>| #[trigger] self@.handles.dom().contains(k) implies handed_out(
                k,
                self.next_handle,
            ) by {
                if k == id@ {
                    assert(id@ == file_id(next));
                } else {
                    assert(old(self)@.handles.dom().contains(k));
                    let seed = choose|seed: u64| seed < next && k == #[trigger] file_id(seed);
                    assert(seed < self.next_handle && k == file_id(seed));
                }
            }
        }
        let answer = self.answer(
            request,
            wire::STATUS_SUCCESS,
            message::create_response(id, length),
        );
        let after = if directory {
            After::Nothing
        } else {
            After::Report(Event::Created(name))
        };
        Ok(Reply { answer, after })
    }

    fn on_write(&mut self, request: &Message) -> (reply: Result<Reply, TransportError>)
        requires
            old(self).wf(),
            request.command == wire::WRITE,
            old(self)@.admits(request@),
        ensures
            final(self).wf(),
            replied(reply, old(self)@, final(self)@, old(self)@.serve(request@)),
    {
        let (id, offset, data) = match message::write_fields(&request.body) {
            Ok(fields) => fields,
            Err(error) => return Err(error),
        };
        let name = match self.handles.get(&id) {
            Some(open) => open.name.clone(),
            None => {
                let answer = self.answer(request, wire::STATUS_OBJECT_NAME_NOT_FOUND, Vec::new());
                return Ok(Reply { answer, after: After::Nothing });
            },
        };
        self.handles.mark_written(&id);
        let mut bytes = match self.files.remove(&name) {
            Some(bytes) => bytes,
            None => Vec::new(),
        };
        write_at(&mut bytes, offset as usize, &data);
        self.files.insert(name.clone(), bytes);
        let count = data.len();
        let body = message::write_response(to_length32(count));
        let answer = self.answer(request, wire::STATUS_SUCCESS, body);
        proof {
            let open = old(self)@.handles[id@];
            assert(self@.files =~= old(self)@.files.insert(
                open.name,
                overwritten(content(old(self)@.files, open.name), offset as nat, data@),
            ));
        }
        Ok(Reply { answer, after: After::Report(Event::Written(name, count)) })
    }

    fn on_read(&self, request: &Message) -> (reply: Result<Reply, TransportError>)
        requires
            self.wf(),
            request.command == wire::READ,
        ensures
            replied(reply, self@, self@, self@.serve(request@)),
    {
        let (id, offset, length) = match message::read_fields(&request.body) {
            Ok(fields) => fields,
            Err(error) => return Err(error),
        };
        let name = match self.handles.get(&id) {
            Some(open) => open.name.clone(),
            None => {
                let answer = self.answer(request, wire::STATUS_OBJECT_NAME_NOT_FOUND, Vec::new());
                return Ok(Reply { answer, after: After::Nothing });
            },
        };
        let none: Vec<u8> = Vec::new();
        let bytes = match self.files.get(&name) {
            Some(bytes) => bytes,
            None => &none,
        };
        assert(bytes@ =~= content(self@.files, name@));
        if offset >= bytes.len() as u64 {
            let body = message::read_response(&none);
            assert(none@ =~= Seq::<u8>::empty());
            let answer = self.answer(request, wire::STATUS_END_OF_FILE, body);
            return Ok(Reply { answer, after: After::Report(Event::Read(name)) });
        }
        let start = offset as usize;
        let end = if bytes.len() - start < length as usize {
            bytes.len()
        } else {
            start + length as usize
        };
        let body = message::read_response(&bytes[start..end]);
        let answer = self.answer(request, wire::STATUS_SUCCESS, body);
        Ok(Reply { answer, after: After::Report(Event::Read(name)) })
    }

    fn on_close(&mut self, request: &Message) -> (reply: Result<Reply, TransportError>)
        requires
            old(self).wf(),
            request.command == wire::CLOSE,
        ensures
            final(self).wf(),
            replied(reply, old(self)@, final(self)@, old(self)@.serve(request@)),
    {
        let id = match message::close_id(&request.body) {
            Ok(id) => id,
            Err(error) => return Err(error),
        };
        let open = self.handles.remove(&id);
        proof {
            assert forall|k: Seq<u8>| #[trigger] self@.handles.dom().contains(k) implies handed_out(
                k,
                self.next_handle,
            ) by {
                assert(old(self)@.handles.dom().contains(k));
            }
        }
        let answer = self.answer(request, wire::STATUS_SUCCESS, message::close_response());
        let after = match open {
            None => After::Nothing,
            Some(open) => if open.delete_on_close {
                After::Remove(open.name)
            } else if open.written {
                After::Commit(open.name)
            } else {
                After::Nothing
            },
        };
        Ok(Reply { answer, after })
    }

    fn on_query(&self, request: &Message) -> (reply: Result<Reply, TransportError>)
        requires
            self.wf(),
            request.command == wire::QUERY_DIRECTORY,
        ensures
            replied(reply, self@, self@, self@.serve(request@)),
    {
        if let Err(error) = directory::id(&request.body) {
            return Err(error);
        }
        let answer = if self.files.is_empty() {
            let none: Vec<u8> = Vec::new();
            assert(none@ =~= Seq::<u8>::empty());
            self.answer(request, wire::STATUS_NO_MORE_FILES, none)
        } else {
            let names = self.files.names();
            self.answer(request, wire::STATUS_SUCCESS, directory::response(&names))
        };
        Ok(Reply { answer, after: After::Report(Event::Listed) })
    }

    /// Serve one request: the answer to send, and what it comes to once it is
    /// sent.
    pub fn serve(&mut self, request: &Message) -> (reply: Result<Reply, TransportError>)
        requires
            old(self).wf(),
            old(self)@.admits(request@),
        ensures
            final(self).wf(),
            replied(reply, old(self)@, final(self)@, old(self)@.serve(request@)),
    {
        if request.command == wire::CREATE {
            self.on_create(request)
        } else if request.command == wire::WRITE {
            self.on_write(request)
        } else if request.command == wire::READ {
            self.on_read(request)
        } else if request.command == wire::CLOSE {
            self.on_close(request)
        } else if request.command == wire::QUERY_DIRECTORY {
            self.on_query(request)
        } else if request.command == wire::TREE_DISCONNECT {
            let body: Vec<u8> = vec![4, 0, 0, 0];
            assert(body@ =~= seq![4u8, 0u8, 0u8, 0u8]);
            let answer = self.answer(request, wire::STATUS_SUCCESS, body);
            Ok(Reply { answer, after: After::Nothing })
        } else {
            let command = to_hex(request.command as u64, 4);
            let text = join(&join("command 0x", &command), " after the tree connect");
            Err(TransportError::permanent(text))
        }
    }

    /// Settle what a request comes to, its answer sent: the event to report,
    /// if there is one.
    pub fn settle(&mut self, after: After) -> (event: Option<Event>)
        requires
            old(self).wf(),
        ensures
            final(self).wf(),
            (final(self)@, reported(event)) == old(self)@.settle(after@),
    {
        match after {
            After::Nothing => None,
            After::Report(event) => Some(event),
            After::Remove(name) => {
                let _ = self.files.remove(&name);
                Some(Event::Removed(name))
            },
            After::Commit(name) => {
                let bytes = match self.files.get(&name) {
                    Some(bytes) => bytes.clone(),
                    None => Vec::new(),
                };
                assert(bytes@ =~= content(self@.files, name@));
                let uri = origin(&self.peer, &self.tree, &name);
                Some(Event::Committed(Arrived::new(uri, bytes)))
            },
        }
    }
}

/// What came of the next message of a client.
pub enum Turn {
    /// The client logged off or closed the connection.
    Over,
    /// The client asked for something; this is to be sent, and then settled.
    Served(Reply),
}

impl Session {
    /// Take the next message of the client: serve it, unless the client logged
    /// off or closed the connection.
    pub fn next_event(&mut self, read: Option<Message>) -> (turn: Result<Turn, TransportError>)
        requires
            old(self).wf(),
            match read {
                Some(request) => request.command == wire::LOGOFF || old(self)@.admits(request@),
                None => true,
            },
        ensures
            final(self).wf(),
            match read {
                Some(request) => if request.command == wire::LOGOFF {
                    turn matches Ok(Turn::Over) && final(self)@ == old(self)@
                } else {
                    match (turn, old(self)@.serve(request@)) {
                        (Ok(Turn::Served(reply)), Ok((next, model))) => reply@ == model
                            && final(self)@ == next,
                        (Err(error), Err(fault)) => error@ == fault && final(self)@ == old(self)@,
                        _ => false,
                    }
                },
                None => turn matches Ok(Turn::Over) && final(self)@ == old(self)@,
            },
    {
        let request = match read {
            Some(request) => request,
            None => return Ok(Turn::Over),
        };
        if request.command == wire::LOGOFF {
            return Ok(Turn::Over);
        }
        match self.serve(&request) {
            Ok(reply) => Ok(Turn::Served(reply)),
            Err(error) => Err(error),
        }
    }

    /// The Stream that `event` hands up, if it hands one up.
    pub fn next_store(event: Event) -> (arrived: Option<Arrived>)
        ensures
            match event {
                Event::Committed(stored) => arrived == Some(stored),
                _ => arrived is None,
            },
    {
        match event {
            Event::Committed(arrived) => Some(arrived),
            _ => None,
        }
    }
}

/// The seed of a nonce: the session's number in the upper five bytes, the clock
/// and the peer's port in the lower three.
pub open spec fn nonce_seed(nanos: u64, session: u64, port: u16) -> u64 {
    ((session & 0xFF_FFFF_FFFF) << 24) | ((nanos ^ (port as u64)) & 0xFF_FFFF)
}

/// The nanoseconds of a clock as far as eight bytes carry them, none where the
/// clock stands before its epoch.
pub open spec fn clock(since_epoch: Option<u128>) -> u64 {
    match since_epoch {
        Some(nanos) => if nanos <= u64::MAX {
            nanos as u64
        } else {
            u64::MAX
        },
        None => 0,
    }
}

/// Eight bytes no two sessions share: the clock, the peer and the session's
/// number, which stands in five bytes of its own.
pub fn fresh_nonce(since_epoch: Option<u128>, session: u64, port: u16) -> (nonce: [u8; 8])
    ensures
        nonce@ == le64(nonce_seed(clock(since_epoch), session, port)),
{
    let nanos: u64 = match since_epoch {
        Some(nanos) => if nanos <= u64::MAX as u128 {
            nanos as u64
        } else {
            u64::MAX
        },
        None => 0,
    };
    let seed = ((session & 0xFF_FFFF_FFFF) << 24) | ((nanos ^ (port as u64)) & 0xFF_FFFF);
    let mut bytes: Vec<u8> = Vec::new();
    push_u64(&mut bytes, seed);
    assert(bytes@ =~= le64(seed));
    first_eight(&bytes)
}

fn first_eight(bytes: &[u8]) -> (eight: [u8; 8])
    requires
        bytes@.len() == 8,
    ensures
        eight@ == bytes@,
{
    let eight = [
        bytes[0],
        bytes[1],
        bytes[2],
        bytes[3],
        bytes[4],
        bytes[5],
        bytes[6],
        bytes[7],
    ];
    assert(eight@ =~= bytes@);
    eight
}

/// No two sessions share a nonce, whatever the clock says and wherever their
/// clients are: session numbers that differ in what five bytes count give
/// different nonces.
pub proof fn law_no_two_sessions_share_a_nonce(
    nanos: u64,
    later: u64,
    session: u64,
    other: u64,
    port: u16,
    other_port: u16,
)
    requires
        session % 0x100_0000_0000 != other % 0x100_0000_0000,
    ensures
        le64(nonce_seed(nanos, session, port)) != le64(nonce_seed(later, other, other_port)),
{
    let from = port as u64;
    let to = other_port as u64;
    assert(((session & 0xFF_FFFF_FFFF) << 24) | ((nanos ^ from) & 0xFF_FFFF) != ((other
        & 0xFF_FFFF_FFFF) << 24) | ((later ^ to) & 0xFF_FFFF)) by (bit_vector)
        requires
            session % 0x100_0000_0000 != other % 0x100_0000_0000,
    ;
    lemma_le64_differs(nonce_seed(nanos, session, port), nonce_seed(later, other, other_port));
}

/// One session's nonces differ where its client's port does, and where the clock
/// does in what three bytes count.
pub proof fn law_a_nonce_is_fresh(nanos: u64, later: u64, session: u64, port: u16, other_port: u16)
    ensures
        port != other_port ==> le64(nonce_seed(nanos, session, port)) != le64(
            nonce_seed(nanos, session, other_port),
        ),
        nanos % 0x100_0000 != later % 0x100_0000 ==> le64(nonce_seed(nanos, session, port))
            != le64(nonce_seed(later, session, port)),
{
    let from = port as u64;
    let to = other_port as u64;
    assert(from != to && from <= 0xFFFF && to <= 0xFFFF ==> ((session & 0xFF_FFFF_FFFF) << 24) | ((
    nanos ^ from) & 0xFF_FFFF) != ((session & 0xFF_FFFF_FFFF) << 24) | ((nanos ^ to)
        & 0xFF_FFFF)) by (bit_vector);
    assert(nanos % 0x100_0000 != later % 0x100_0000 ==> ((session & 0xFF_FFFF_FFFF) << 24) | ((nanos
        ^ from) & 0xFF_FFFF) != ((session & 0xFF_FFFF_FFFF) << 24) | ((later ^ from)
        & 0xFF_FFFF)) by (bit_vector);
    let first = nonce_seed(nanos, session, port);
    lemma_le64_differs(first, nonce_seed(nanos, session, other_port));
    lemma_le64_differs(first, nonce_seed(later, session, port));
}

proof fn lemma_le64_differs(a: u64, b: u64)
    ensures
        a != b ==> le64(a) != le64(b),
{
    let bytes = le64(a);
    if le64(a) == le64(b) {
        assert(bytes.subrange(0, 8) =~= le64(a));
        law_u64_reads_back(bytes, 0, a);
        law_u64_reads_back(bytes, 0, b);
    }
}

/// Put `data` at `at` of `bytes`, with zeros in a gap before it.
fn write_at(bytes: &mut Vec<u8>, at: usize, data: &[u8])
    requires
        at + data@.len() <= isize::MAX,
    ensures
        final(bytes)@ == overwritten(old(bytes)@, at as nat, data@),
{
    let end = at + data.len();
    let ghost before = bytes@;
    if bytes.len() < end {
        bytes.resize(end, 0);
        assert forall|i: int| 0 <= i < before.len() implies bytes@[i] == before[i] by {
            assert(bytes@.subrange(0, before.len() as int)[i] == bytes@[i]);
        }
    }
    let ghost middle = bytes@;
    let mut i: usize = 0;
    while i < data.len()
        invariant
            i <= data@.len(),
            end == at + data@.len(),
            end <= middle.len(),
            bytes@.len() == middle.len(),
            forall|j: int|
                0 <= j < middle.len() ==> #[trigger] bytes@[j] == if at <= j < at + i {
                    data@[j - at]
                } else {
                    middle[j]
                },
        decreases data@.len() - i,
    {
        bytes[at + i] = data[i];
        i = i + 1;
    }
    assert(bytes@ =~= overwritten(before, at as nat, data@));
}

/// A challenge offers of what was asked for UTF-16 names and NTLM, each exactly
/// where it was asked for, and nothing else; what could not be read is the
/// failure.
pub proof fn law_only_what_is_known_is_offered(
    asked: Result<u32, String>,
    offered: Result<u32, TransportError>,
)
    requires
        call_ensures(Session::offered, (asked,), offered),
    ensures
        match (asked, offered) {
            (Ok(asked), Ok(flags)) => {
                &&& flags % 2 == asked % 2
                &&& (flags / 0x200) % 2 == (asked / 0x200) % 2
                &&& flags == flags % 2 + 0x200 * ((flags / 0x200) % 2)
            },
            (Err(message), Err(error)) => error.message@ == message@ && !error.retryable,
            _ => false,
        },
{
    if let Ok(asked) = asked {
        assert((NEGOTIATE_UNICODE | NEGOTIATE_NTLM) == 0x201) by (bit_vector);
        let flags = asked & 0x201;
        assert(flags % 2 == asked % 2 && (flags / 0x200) % 2 == (asked / 0x200) % 2 && flags
            == flags % 2 + 0x200 * ((flags / 0x200) % 2)) by (bit_vector)
            requires
                flags == asked & 0x201,
        ;
    }
}

/// Only a file that was written and closed is a Stream that is handed up, as it
/// was reported.
pub proof fn law_only_a_committed_file_is_stored(event: Event, arrived: Option<Arrived>)
    requires
        call_ensures(Session::next_store, (event,), arrived),
    ensures
        arrived matches Some(stored) ==> event == Event::Committed(stored),
        arrived is None ==> !(event is Committed),
{
}

/// A nonce carries the clock: nanoseconds that eight bytes count are carried as
/// they are, more are as many as can be counted, and a clock before its epoch
/// counts none.
pub proof fn law_a_clock_is_carried_as_it_is(nanos: u128)
    ensures
        nanos <= u64::MAX ==> clock(Some(nanos)) == nanos,
        nanos > u64::MAX ==> clock(Some(nanos)) == u64::MAX,
        clock(None) == 0,
{
}

/// A session can carry out every request but a create for which there is no
/// handle left, and a write to an open file past what memory holds.
pub proof fn law_a_session_admits_what_it_can_hold(session: SessionView, request: MessageView)
    ensures
        !session.admits(request) ==> {
            ||| request.command == 5 && session.next_handle == u64::MAX
            ||| {
                &&& request.command == 9
                &&& write_fields_in(request.body) matches Ok((id, offset, data))
                &&& session.handles.dom().contains(id)
                &&& offset + data.len() > isize::MAX
            }
        },
{
}

/// A message that is not due is refused with the command that came and the one
/// that was due, each in four hexadecimal digits; no message at all is a closed
/// connection. What is due is handed on as it was read.
pub proof fn law_only_what_is_due_is_taken(read: Option<MessageView>, command: u16)
    ensures
        match expected(read, command) {
            Ok(request) => read == Some(request) && request.command == command,
            Err(fault) => {
                &&& !fault.retryable
                &&& match read {
                    None => fault.message == "the peer closed the connection"@,
                    Some(request) => {
                        &&& request.command != command
                        &&& fault.message.subrange(10, 14) == hex(request.command as nat, 4)
                        &&& fault.message.subrange(23, 27) == hex(command as nat, 4)
                    },
                }
            },
        },
{
    if let Some(request) = read {
        reveal_strlit("command 0x");
        reveal_strlit(" where 0x");
        reveal_strlit(" was due");
        law_a_hexadecimal_reads_back(request.command as nat, 4);
        law_a_hexadecimal_reads_back(command as nat, 4);
        let found = hex(request.command as nat, 4);
        let due = hex(command as nat, 4);
        let message = "command 0x"@ + found + " where 0x"@ + due + " was due"@;
        assert(message.subrange(10, 14) =~= found);
        assert(message.subrange(23, 27) =~= due);
    }
}

/// A refusal names the share that was asked for and the one that is served.
pub proof fn law_a_refusal_names_both_shares(share: Seq<char>)
    ensures
        refusal(share).message == "a tree connect for "@ + debug_text(share) + ", not "@
            + debug_text("xmip"@),
        !refusal(share).retryable,
{
}

/// A session is over where its client logs off or is gone, and nothing is changed
/// then; anything else is served or ends it in a failure.
pub proof fn law_a_session_is_over_when_its_client_leaves(
    session: &mut Session,
    read: Option<Message>,
    turn: Result<Turn, TransportError>,
)
    requires
        call_ensures(Session::next_event, (session, read), turn),
    ensures
        turn matches Ok(Turn::Over) <==> (read matches Some(request) ==> request.command == 2),
        turn matches Ok(Turn::Over) ==> final(session)@ == old(session)@,
{
}

/// What a request comes to is carried out once: a file that is to be removed is
/// gone and reported as removed, a file that is to be handed up stays and is
/// reported with its bytes, and any other report changes nothing.
pub proof fn law_what_a_request_comes_to_is_settled(
    session: &mut Session,
    after: After,
    event: Option<Event>,
)
    requires
        call_ensures(Session::settle, (session, after), event),
    ensures
        match after {
            After::Nothing => event is None && final(session)@ == old(session)@,
            After::Report(report) => {
                &&& event matches Some(told)
                &&& told@ == report@
                &&& final(session)@ == old(session)@
            },
            After::Remove(name) => {
                &&& event matches Some(Event::Removed(gone))
                &&& gone@ == name@
                &&& final(session)@.files == old(session)@.files.remove(name@)
                &&& final(session)@.handles == old(session)@.handles
            },
            After::Commit(name) => {
                &&& event matches Some(Event::Committed(arrived))
                &&& old(session)@.files.dom().contains(name@) ==> old(session)@.files[name@]
                    == arrived.bytes@
                &&& final(session)@ == old(session)@
            },
        },
{
}

/// The nonces of two sessions whose numbers differ in what five bytes count are
/// never the same, whenever and for whomever they are made.
pub proof fn law_fresh_nonces_are_not_shared(
    since_epoch: Option<u128>,
    later: Option<u128>,
    session: u64,
    other: u64,
    port: u16,
    other_port: u16,
    nonce: [u8; 8],
    another: [u8; 8],
)
    requires
        call_ensures(fresh_nonce, (since_epoch, session, port), nonce),
        call_ensures(fresh_nonce, (later, other, other_port), another),
        session % 0x100_0000_0000 != other % 0x100_0000_0000,
    ensures
        nonce@ != another@,
{
    law_no_two_sessions_share_a_nonce(
        clock(since_epoch),
        clock(later),
        session,
        other,
        port,
        other_port,
    );
}

/// A session serves the files it is given in place of what it held, and nothing
/// else of it is changed.
pub proof fn law_a_session_serves_what_it_is_given(
    session: Session,
    files: Files,
    serving: Session,
    held: &Files,
    tree: &str,
)
    ensures
        call_ensures(Session::with_files, (session, files), serving) ==> {
            &&& serving@.files == files@
            &&& serving@.handles == session@.handles
            &&& serving@.peer == session@.peer && serving@.id == session@.id && serving@.tree
                == session@.tree
            &&& serving@.next_handle == session@.next_handle
        },
        call_ensures(Session::files, (&session,), held) ==> held@ == session@.files,
        call_ensures(Session::tree, (&session,), tree) ==> tree@ == session@.tree,
{
}

} // verus!
