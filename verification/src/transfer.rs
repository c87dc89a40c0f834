//! A share as a place Streams are sent to and received from: which server and
//! share are meant, as whom, and the messages that a send and a receive come
//! to.

use std::time::Duration;

use vstd::prelude::*;

use crate::arrived::{origin, origin_of, Arrived, ArrivedView};
use crate::client::{
    chunks_of, connecting, querying, reading, writing, Client, ClientView, Connecting,
    ConnectingView, Listing, ListingView, Reading, ReadingView, Stage, Step, StepView, Writing,
    WritingView,
};
use crate::error::{agrees, permanent_fault, protocol_error, Fault, TransportError};
use crate::message::{
    close_request_body, create_request_body, FileId, FILE_DELETE_ON_CLOSE, FILE_OPEN,
    FILE_OVERWRITE_IF,
};
use crate::ntlm::{Identity, IdentityView};
use crate::session::{Event, EventView, Session, SHARE};
use crate::text::{
    cut, debug_text, decimal, join, law_a_text_is_cut_at_the_first, quoted, split_once, to_decimal,
};
use crate::wire;
use crate::wire::{bare_request, read_view, Message, MessageView};

verus! {

/// The one file the loopback pair puts on the share.
pub const LOOPBACK_FILE: &'static str = "probe.bin";

/// A share on a server, the identity it is spoken to as, whether a file is
/// removed once it is read, when to give up on a server that stops mid-answer,
/// and the largest Stream that is read off one file.
#[derive(Clone)]
pub struct SmbTransport {
    server: String,
    share: String,
    identity: Identity,
    delete_after_retrieve: bool,
    timeout: Option<Duration>,
    largest: Option<u64>,
}

/// What an [`SmbTransport`] says, as a mathematical value.
#[verifier::ext_equal]
pub struct SmbTransportView {
    pub server: Seq<char>,
    pub share: Seq<char>,
    pub identity: IdentityView,
    pub delete_after_retrieve: bool,
    pub timeout: Option<Duration>,
    pub largest: Option<u64>,
}

impl View for SmbTransport {
    type V = SmbTransportView;

    closed spec fn view(&self) -> SmbTransportView {
        SmbTransportView {
            server: self.server@,
            share: self.share@,
            identity: self.identity@,
            delete_after_retrieve: self.delete_after_retrieve,
            timeout: self.timeout,
            largest: self.largest,
        }
    }
}

/// The server without its port.
pub open spec fn host_of(server: Seq<char>) -> Seq<char> {
    match cut(server, ':') {
        Some((host, _)) => host,
        None => server,
    }
}

/// The share path a tree connect names.
pub open spec fn path_of(server: Seq<char>, share: Seq<char>) -> Seq<char> {
    "\\\\"@ + host_of(server) + "\\"@ + share
}

/// The failure where a file of `length` bytes is longer than `largest`.
pub open spec fn oversize(length: nat, largest: u64) -> Fault {
    permanent_fault(
        "a file of "@ + decimal(length) + " bytes, over the largest of "@ + decimal(
            largest as nat,
        ),
    )
}

impl SmbTransportView {
    /// What a receive makes of a file of `length` bytes: nothing, or that it is
    /// longer than the largest.
    pub open spec fn allows(self, length: nat) -> Result<(), Fault> {
        match self.largest {
            Some(largest) => if length > largest {
                Err(oversize(length, largest))
            } else {
                Ok(())
            },
            None => Ok(()),
        }
    }

    /// The server, the share and the name that `target` means, `found` being
    /// the server and the path where `target` is an `smb` URI.
    pub open spec fn resolve(
        self,
        target: Seq<char>,
        found: Option<(Seq<char>, Seq<char>)>,
    ) -> Result<(Seq<char>, Seq<char>, Seq<char>), Fault> {
        match found {
            Some((server, path)) => match cut(path, '/') {
                Some((share, name)) if share.len() > 0 && name.len() > 0 => Ok(
                    (server, share, name),
                ),
                _ => Err(permanent_fault(debug_text(target) + " is not smb://host/share/name"@)),
            },
            None => if target.contains('/') || target.len() == 0 {
                Err(permanent_fault(debug_text(target) + " is not a name on "@ + self.share))
            } else {
                Ok((self.server, self.share, target))
            },
        }
    }
}

impl SmbTransport {
    /// Speak to the server at `server`, `host:445`, about `share`, as a guest
    /// until [`SmbTransport::as_identity`].
    pub fn new(server: &str, share: &str) -> (transport: Self)
        ensures
            transport@ == (SmbTransportView {
                server: server@,
                share: share@,
                identity: IdentityView {
                    domain: "WORKGROUP"@,
                    user: "xmip"@,
                    workstation: "XMIP"@,
                },
                delete_after_retrieve: true,
                timeout: None,
                largest: None,
            }),
    {
        SmbTransport {
            server: server.to_owned(),
            share: share.to_owned(),
            identity: Identity {
                domain: "WORKGROUP".to_owned(),
                user: "xmip".to_owned(),
                workstation: "XMIP".to_owned(),
            },
            delete_after_retrieve: true,
            timeout: None,
            largest: None,
        }
    }

    /// Present this identity in the session setup.
    pub fn as_identity(self, identity: Identity) -> (transport: Self)
        ensures
            transport@ == (SmbTransportView { identity: identity@, ..self@ }),
    {
        let mut transport = self;
        transport.identity = identity;
        transport
    }

    /// Leave read files in place rather than removing them.
    pub fn leaving_files(self) -> (transport: Self)
        ensures
            transport@ == (SmbTransportView { delete_after_retrieve: false, ..self@ }),
    {
        let mut transport = self;
        transport.delete_after_retrieve = false;
        transport
    }

    /// Give up on a server that stops mid-answer.
    pub fn timing_out_after(self, timeout: Duration) -> (transport: Self)
        ensures
            transport@ == (SmbTransportView { timeout: Some(timeout), ..self@ }),
    {
        let mut transport = self;
        transport.timeout = Some(timeout);
        transport
    }

    /// Refuse to receive a file longer than `largest`.
    pub fn reading_at_most(self, largest: u64) -> (transport: Self)
        ensures
            transport@ == (SmbTransportView { largest: Some(largest), ..self@ }),
    {
        let mut transport = self;
        transport.largest = Some(largest);
        transport
    }

    /// Both ends on this machine: an ephemeral local port, the share a session
    /// serves, `timeout` on every read.
    pub fn loopback(timeout: Duration) -> (transport: Self)
        ensures
            transport@ == (SmbTransportView {
                server: "127.0.0.1:0"@,
                share: SHARE@,
                identity: IdentityView {
                    domain: "WORKGROUP"@,
                    user: "xmip"@,
                    workstation: "XMIP"@,
                },
                delete_after_retrieve: true,
                timeout: Some(timeout),
                largest: None,
            }),
    {
        SmbTransport::new("127.0.0.1:0", SHARE).timing_out_after(timeout)
    }

    /// The server this transport speaks to.
    pub fn server(&self) -> (server: &str)
        ensures
            server@ == self@.server,
    {
        self.server.as_str()
    }

    /// The share this transport speaks about.
    pub fn share(&self) -> (share: &str)
        ensures
            share@ == self@.share,
    {
        self.share.as_str()
    }

    /// The identity this transport presents.
    pub fn identity(&self) -> (identity: &Identity)
        ensures
            identity@ == self@.identity,
    {
        &self.identity
    }

    /// When to give up on a server that stops mid-answer.
    pub fn timeout(&self) -> (timeout: Option<Duration>)
        ensures
            timeout == self@.timeout,
    {
        self.timeout
    }

    /// What this transport is called.
    pub fn name(&self) -> (name: &'static str)
        ensures
            name@ == "smb"@,
    {
        "smb"
    }

    /// The share path a tree connect names.
    pub fn share_path(server: &str, share: &str) -> (path: String)
        ensures
            path@ == path_of(server@, share@),
    {
        let host = match split_once(server, ':') {
            Some((host, _)) => host,
            None => server.to_owned(),
        };
        join(&join(&join("\\\\", &host), "\\"), share)
    }

    /// Set up a session and connect the tree of this transport's share: the
    /// first message, and what takes the answers.
    pub fn connect<'a>(&'a self) -> (started: (Connecting<'a>, Message))
        ensures
            started@ == connecting(path_of(self@.server, self@.share), self@.identity),
    {
        self.connect_to(&self.server, &self.share)
    }

    fn connect_to<'a>(&'a self, server: &str, share: &str) -> (started: (Connecting<'a>, Message))
        ensures
            started@ == connecting(path_of(server@, share@), self@.identity),
    {
        Client::connect(SmbTransport::share_path(server, share), &self.identity)
    }

    /// Where a target names the server, share and file itself,
    /// `smb://host:445/share/name`, `found` being its server and its path, or
    /// is a name alone on this transport's share.
    pub fn resolve(&self, target: &str, found: Option<(String, String)>) -> (resolved: Result<
        (String, String, String),
        TransportError,
    >)
        ensures
            agrees(
                resolved,
                self@.resolve(
                    target@,
                    match found {
                        Some(found) => Some(found@),
                        None => None,
                    },
                ),
            ),
    {
        match found {
            Some((server, path)) => {
                if let Some((share, name)) = split_once(&path, '/') {
                    if !is_empty(&share) && !is_empty(&name) {
                        return Ok((server, share, name));
                    }
                }
                let text = join(&quoted(target), " is not smb://host/share/name");
                Err(TransportError::permanent(text))
            },
            None => {
                if has_slash(target) || is_empty(target) {
                    let text = join(&quoted(target), " is not a name on ");
                    return Err(TransportError::permanent(join(&text, &self.share)));
                }
                Ok((self.server.clone(), self.share.clone(), target.to_owned()))
            },
        }
    }
}

impl SmbTransport {
    fn allows(&self, length: u64) -> (allowed: Result<(), TransportError>)
        ensures
            agrees(allowed, self@.allows(length as nat)),
    {
        if let Some(largest) = self.largest {
            if length > largest {
                let size = join(&join("a file of ", &to_decimal(length)), " bytes");
                let text = join(&join(&size, ", over the largest of "), &to_decimal(largest));
                proof {
                    reveal_strlit(" bytes");
                    reveal_strlit(", over the largest of ");
                    reveal_strlit(" bytes, over the largest of ");
                    assert(text@ =~= oversize(length as nat, largest).message);
                }
                return Err(TransportError::permanent(text));
            }
        }
        Ok(())
    }
}

fn is_empty(text: &str) -> (empty: bool)
    ensures
        empty == (text@.len() == 0),
{
    let mut empty = true;
    for c in it: text.chars()
        invariant
            it.seq() == text@,
            empty == (it.index() == 0),
    {
        empty = false;
    }
    empty
}

fn has_slash(text: &str) -> (found: bool)
    ensures
        found == text@.contains('/'),
{
    let mut found = false;
    for c in it: text.chars()
        invariant
            it.seq() == text@,
            found == exists|i: int| 0 <= i < it.index() && text@[i] == '/',
    {
        if c == '/' {
            found = true;
        }
    }
    found
}

/// The Stream that a far end has kept, once `event` was reported too: the first
/// that was handed up.
pub fn kept(stored: Option<Arrived>, event: Event) -> (arrived: Option<Arrived>)
    ensures
        arrived_view(arrived) == keeps(arrived_view(stored), event@),
{
    match stored {
        Some(stored) => Some(stored),
        None => Session::next_store(event),
    }
}

/// What was kept, as a mathematical value.
pub open spec fn arrived_view(stored: Option<Arrived>) -> Option<ArrivedView> {
    match stored {
        Some(arrived) => Some(arrived@),
        None => None,
    }
}

/// The Stream that a far end has kept, once `event` was reported too.
pub open spec fn keeps(stored: Option<ArrivedView>, event: EventView) -> Option<ArrivedView> {
    match (stored, event) {
        (Some(arrived), _) => Some(arrived),
        (None, EventView::Committed(arrived)) => Some(arrived),
        (None, _) => None,
    }
}

/// The Stream that a far end has kept of all that was reported.
pub open spec fn kept_of(events: Seq<EventView>) -> Option<ArrivedView>
    decreases events.len(),
{
    if events.len() == 0 {
        None
    } else {
        keeps(kept_of(events.drop_last()), events.last())
    }
}

/// The Stream that a far end took, where it kept `stored`.
pub open spec fn taken_of(stored: Option<ArrivedView>) -> Result<ArrivedView, Fault> {
    match stored {
        Some(arrived) => Ok(arrived),
        None => Err(permanent_fault("the client logged off without writing"@)),
    }
}

/// The file the far end took, which must have been written.
pub fn taken(stored: Option<Arrived>) -> (arrived: Result<Arrived, TransportError>)
    ensures
        agrees(arrived, taken_of(arrived_view(stored))),
{
    match stored {
        Some(stored) => Ok(stored),
        None => Err(protocol_error("the client logged off without writing")),
    }
}

/// How far a send has come: what was asked last.
enum SendWork<'a> {
    Connecting(Connecting<'a>),
    Creating(Client),
    Writing(FileId, Writing<'a>),
    Closing(Client),
}

/// What was asked last of a send, as a mathematical value.
#[verifier::ext_equal]
pub enum SendWorkView {
    Connecting(ConnectingView),
    Creating(ClientView),
    Writing(Seq<u8>, WritingView),
    Closing(ClientView),
}

impl SendWorkView {
    /// The client that asked.
    pub open spec fn client(self) -> ClientView {
        match self {
            SendWorkView::Connecting(connecting) => connecting.client,
            SendWorkView::Creating(client) => client,
            SendWorkView::Writing(_, writing) => writing.client,
            SendWorkView::Closing(client) => client,
        }
    }
}

/// A Stream being sent: connect, create the file, write it, close it, log off.
pub struct Sending<'a> {
    name: String,
    bytes: &'a [u8],
    work: SendWork<'a>,
}

/// What a [`Sending`] says, as a mathematical value.
#[verifier::ext_equal]
pub struct SendingView {
    pub name: Seq<char>,
    pub bytes: Seq<u8>,
    pub work: SendWorkView,
}

impl<'a> View for Sending<'a> {
    type V = SendingView;

    closed spec fn view(&self) -> SendingView {
        SendingView {
            name: self.name@,
            bytes: self.bytes@,
            work: match self.work {
                SendWork::Connecting(connecting) => SendWorkView::Connecting(connecting@),
                SendWork::Creating(client) => SendWorkView::Creating(client@),
                SendWork::Writing(id, writing) => SendWorkView::Writing(id@, writing@),
                SendWork::Closing(client) => SendWorkView::Closing(client@),
            },
        }
    }
}

/// The message that logs a client off.
pub open spec fn logoff_of(client: ClientView) -> MessageView {
    MessageView {
        session_id: client.session_id,
        ..bare_request(wire::LOGOFF, client.next_message_id, seq![4u8, 0u8, 0u8, 0u8])
    }
}

/// Sending `bytes` to `name` on `share` at `server`, and the first message.
pub open spec fn sending(
    identity: IdentityView,
    server: Seq<char>,
    share: Seq<char>,
    name: Seq<char>,
    bytes: Seq<u8>,
) -> (SendingView, MessageView) {
    let (work, request) = connecting(path_of(server, share), identity);
    (SendingView { name, bytes, work: SendWorkView::Connecting(work) }, request)
}

impl SendingView {
    /// The send once `client` asked for something else, and that message.
    pub open spec fn asks(self, work: SendWorkView, request: MessageView) -> StepView<
        SendingView,
        MessageView,
    > {
        StepView::Ask(SendingView { work, ..self }, request)
    }

    /// The send once the server is connected: the file is to be created.
    pub open spec fn connected(self, client: ClientView) -> StepView<SendingView, MessageView> {
        self.asks(
            SendWorkView::Creating(client.next()),
            client.request(
                wire::CREATE,
                create_request_body(self.name, FILE_OVERWRITE_IF, 0),
            ),
        )
    }

    /// The send once the file is created: it is to be written.
    pub open spec fn created(self, client: ClientView, id: Seq<u8>) -> StepView<
        SendingView,
        MessageView,
    > {
        let (work, request) = writing(client, id, chunks_of(self.bytes), 0);
        self.asks(SendWorkView::Writing(id, work), request)
    }

    /// The send once the file is written: it is to be closed.
    pub open spec fn written(self, client: ClientView, id: Seq<u8>) -> StepView<
        SendingView,
        MessageView,
    > {
        self.asks(
            SendWorkView::Closing(client.next()),
            client.request(wire::CLOSE, close_request_body(id)),
        )
    }

    /// The send after what was read in answer to the last message. It is over
    /// with the message that logs off.
    pub open spec fn take(self, read: Option<MessageView>) -> Result<
        StepView<SendingView, MessageView>,
        Fault,
    > {
        match self.work {
            SendWorkView::Connecting(work) => match work.take(read) {
                Err(fault) => Err(fault),
                Ok(StepView::Ask(work, request)) => Ok(
                    self.asks(SendWorkView::Connecting(work), request),
                ),
                Ok(StepView::Done(client)) => Ok(self.connected(client)),
            },
            SendWorkView::Creating(client) => match client.handle(read) {
                Err(fault) => Err(fault),
                Ok(id) => Ok(self.created(client, id)),
            },
            SendWorkView::Writing(id, work) => match work.take(read) {
                Err(fault) => Err(fault),
                Ok(StepView::Ask(work, request)) => Ok(
                    self.asks(SendWorkView::Writing(id, work), request),
                ),
                Ok(StepView::Done(client)) => Ok(self.written(client, id)),
            },
            SendWorkView::Closing(client) => match client.success(read) {
                Err(fault) => Err(fault),
                Ok(_) => Ok(StepView::Done(logoff_of(client))),
            },
        }
    }
}

impl SmbTransport {
    /// Send `bytes` to `name` on `share` at `server`, as
    /// [`SmbTransport::resolve`] found them: the first message, and what takes
    /// the answers.
    pub fn send<'a>(&'a self, server: &str, share: &str, name: String, bytes: &'a [u8]) -> (started: (
        Sending<'a>,
        Message,
    ))
        ensures
            started@ == sending(self@.identity, server@, share@, name@, bytes@),
            started.0.wf(),
    {
        let (connecting, request) = self.connect_to(server, share);
        (Sending { name, bytes, work: SendWork::Connecting(connecting) }, request)
    }
}

impl<'a> Sending<'a> {
    /// A message is on its way.
    pub closed spec fn wf(&self) -> bool {
        &&& 0 < self@.work.client().next_message_id
        &&& match self.work {
            SendWork::Writing(_, writing) => writing.wf(),
            _ => true,
        }
    }

    /// True where there is an id left for another message.
    pub fn can_ask(&self) -> (can: bool)
        ensures
            can == (self@.work.client().next_message_id < u64::MAX),
    {
        match &self.work {
            SendWork::Connecting(connecting) => connecting.can_ask(),
            SendWork::Creating(client) => client.can_ask(),
            SendWork::Writing(_, writing) => writing.can_ask(),
            SendWork::Closing(client) => client.can_ask(),
        }
    }

    /// Take what was read in answer to the last message: what to send next, and
    /// in the end the message that logs off, which nothing is read in answer
    /// to.
    pub fn take(self, read: Option<Message>) -> (step: Result<
        Step<Sending<'a>, Message>,
        TransportError,
    >)
        requires
            self.wf(),
            self@.work.client().next_message_id < u64::MAX,
        ensures
            agrees(step, self@.take(read_view(read))),
            step matches Ok(Step::Ask(next, _)) ==> next.wf(),
    {
        let name = self.name;
        let bytes = self.bytes;
        match self.work {
            SendWork::Connecting(connecting) => match connecting.take(read) {
                Err(error) => Err(error),
                Ok(Step::Ask(next, request)) => {
                    let work = SendWork::Connecting(next);
                    Ok(Step::Ask(Sending { name, bytes, work }, request))
                },
                Ok(Step::Done(connected)) => {
                    let mut client = connected;
                    let request = client.create(&name);
                    let work = SendWork::Creating(client);
                    Ok(Step::Ask(Sending { name, bytes, work }, request))
                },
            },
            SendWork::Creating(client) => match client.handle(read) {
                Err(error) => Err(error),
                Ok(id) => {
                    let (writing, request) = client.write_all(id, bytes);
                    let work = SendWork::Writing(id, writing);
                    Ok(Step::Ask(Sending { name, bytes, work }, request))
                },
            },
            SendWork::Writing(id, writing) => match writing.take(read) {
                Err(error) => Err(error),
                Ok(Step::Ask(next, request)) => {
                    let work = SendWork::Writing(id, next);
                    Ok(Step::Ask(Sending { name, bytes, work }, request))
                },
                Ok(Step::Done(written)) => {
                    let mut client = written;
                    let request = client.close(id);
                    let work = SendWork::Closing(client);
                    Ok(Step::Ask(Sending { name, bytes, work }, request))
                },
            },
            SendWork::Closing(client) => match client.closed(read) {
                Err(error) => Err(error),
                Ok(_) => Ok(Step::Done(client.logoff())),
            },
        }
    }
}

/// How far a receive has come: what was asked last, and what was read of the
/// file it is at.
enum ReceiveWork<'a> {
    Connecting(Connecting<'a>),
    Listing(Listing),
    Opening(Client),
    Reading(FileId, Reading),
    Closing(Client, Vec<u8>),
    OpeningToDelete(Client, Vec<u8>),
    Removing(Client, Vec<u8>),
}

/// What was asked last of a receive, as a mathematical value.
#[verifier::ext_equal]
pub enum ReceiveWorkView {
    Connecting(ConnectingView),
    Listing(ListingView),
    Opening(ClientView),
    Reading(Seq<u8>, ReadingView),
    Closing(ClientView, Seq<u8>),
    OpeningToDelete(ClientView, Seq<u8>),
    Removing(ClientView, Seq<u8>),
}

impl ReceiveWorkView {
    /// The client that asked.
    pub open spec fn client(self) -> ClientView {
        match self {
            ReceiveWorkView::Connecting(connecting) => connecting.client,
            ReceiveWorkView::Listing(listing) => listing.client,
            ReceiveWorkView::Opening(client) => client,
            ReceiveWorkView::Reading(_, reading) => reading.client,
            ReceiveWorkView::Closing(client, _) => client,
            ReceiveWorkView::OpeningToDelete(client, _) => client,
            ReceiveWorkView::Removing(client, _) => client,
        }
    }

    /// The receive is at a file that was listed.
    pub open spec fn at_file(self) -> bool {
        !(self is Connecting) && !(self is Listing)
    }
}

/// What a receive is about: the names that were listed, the one it is at, and
/// what has arrived.
struct Progress<'a> {
    transport: &'a SmbTransport,
    names: Vec<String>,
    at: usize,
    arrived: Vec<Arrived>,
}

/// Streams being received: connect, list the share, read each file and remove
/// it unless the files are left, log off.
pub struct Receiving<'a> {
    progress: Progress<'a>,
    work: ReceiveWork<'a>,
}

/// What a [`Receiving`] says, as a mathematical value: the names of the files
/// that have not arrived, the one it is at first, and what has arrived.
#[verifier::ext_equal]
pub struct ReceivingView {
    pub transport: SmbTransportView,
    pub names: Seq<Seq<char>>,
    pub arrived: Seq<ArrivedView>,
    pub work: ReceiveWorkView,
}

impl<'a> ReceiveWork<'a> {
    closed spec fn model(&self) -> ReceiveWorkView {
        match self {
            ReceiveWork::Connecting(connecting) => ReceiveWorkView::Connecting(connecting@),
            ReceiveWork::Listing(listing) => ReceiveWorkView::Listing(listing@),
            ReceiveWork::Opening(client) => ReceiveWorkView::Opening(client@),
            ReceiveWork::Reading(id, reading) => ReceiveWorkView::Reading(id@, reading@),
            ReceiveWork::Closing(client, bytes) => ReceiveWorkView::Closing(client@, bytes@),
            ReceiveWork::OpeningToDelete(client, bytes) => ReceiveWorkView::OpeningToDelete(
                client@,
                bytes@,
            ),
            ReceiveWork::Removing(client, bytes) => ReceiveWorkView::Removing(client@, bytes@),
        }
    }
}

impl<'a> View for Receiving<'a> {
    type V = ReceivingView;

    closed spec fn view(&self) -> ReceivingView {
        self.progress.model(self.work.model())
    }
}

/// What a receive comes to: the message that logs off, and what arrived.
pub struct Received {
    pub logoff: Message,
    pub arrived: Vec<Arrived>,
}

/// What a [`Received`] says, as a mathematical value.
#[verifier::ext_equal]
pub struct ReceivedView {
    pub logoff: MessageView,
    pub arrived: Seq<ArrivedView>,
}

impl View for Received {
    type V = ReceivedView;

    open spec fn view(&self) -> ReceivedView {
        ReceivedView { logoff: self.logoff@, arrived: self.arrived.deep_view() }
    }
}

/// Receiving what `transport` is about, and the first message.
pub open spec fn receiving(transport: SmbTransportView) -> (ReceivingView, MessageView) {
    let (work, request) = connecting(
        path_of(transport.server, transport.share),
        transport.identity,
    );
    (
        ReceivingView {
            transport,
            names: Seq::empty(),
            arrived: Seq::empty(),
            work: ReceiveWorkView::Connecting(work),
        },
        request,
    )
}

/// None of what arrived is longer than the largest that `transport` allows.
pub open spec fn all_allowed(transport: SmbTransportView, arrived: Seq<ArrivedView>) -> bool {
    forall|i: int|
        0 <= i < arrived.len() ==> transport.allows((#[trigger] arrived[i]).bytes.len()) is Ok
}

impl ReceivingView {
    /// Nothing that arrived, nor what was read of the file the receive is at,
    /// is longer than the largest.
    pub open spec fn bounded(self) -> bool {
        &&& all_allowed(self.transport, self.arrived)
        &&& match self.work {
            ReceiveWorkView::Closing(_, bytes) => self.transport.allows(bytes.len()) is Ok,
            ReceiveWorkView::OpeningToDelete(_, bytes) => self.transport.allows(
                bytes.len(),
            ) is Ok,
            ReceiveWorkView::Removing(_, bytes) => self.transport.allows(bytes.len()) is Ok,
            _ => true,
        }
    }

    /// The receive once `work` was asked for, and that message.
    pub open spec fn asks(self, work: ReceiveWorkView, request: MessageView) -> StepView<
        ReceivingView,
        ReceivedView,
    > {
        StepView::Ask(ReceivingView { work, ..self }, request)
    }

    /// The receive at the next file, which is to be opened; where there is
    /// none, it is over.
    pub open spec fn next_file(self, client: ClientView) -> StepView<ReceivingView, ReceivedView> {
        if self.names.len() == 0 {
            StepView::Done(ReceivedView { logoff: logoff_of(client), arrived: self.arrived })
        } else {
            self.asks(
                ReceiveWorkView::Opening(client.next()),
                client.request(
                    wire::CREATE,
                    create_request_body(self.names[0], FILE_OPEN, 0),
                ),
            )
        }
    }

    /// The receive once the share is listed.
    pub open spec fn listed(self, client: ClientView, names: Seq<Seq<char>>) -> StepView<
        ReceivingView,
        ReceivedView,
    > {
        ReceivingView { names, ..self }.next_file(client)
    }

    /// The receive as a read goes on; once it is over the file is to be closed.
    pub open spec fn reads(
        self,
        id: Seq<u8>,
        step: StepView<ReadingView, (ClientView, Seq<u8>)>,
    ) -> StepView<ReceivingView, ReceivedView> {
        match step {
            StepView::Ask(work, request) => self.asks(ReceiveWorkView::Reading(id, work), request),
            StepView::Done((client, bytes)) => self.asks(
                ReceiveWorkView::Closing(client.next(), bytes),
                client.request(wire::CLOSE, close_request_body(id)),
            ),
        }
    }

    /// The receive as a read goes on, where what was read is not longer than the
    /// largest.
    pub open spec fn reads_within(
        self,
        id: Seq<u8>,
        step: StepView<ReadingView, (ClientView, Seq<u8>)>,
    ) -> Result<StepView<ReceivingView, ReceivedView>, Fault> {
        match step {
            StepView::Ask(_, _) => Ok(self.reads(id, step)),
            StepView::Done((_, bytes)) => match self.transport.allows(bytes.len()) {
                Err(fault) => Err(fault),
                Ok(_) => Ok(self.reads(id, step)),
            },
        }
    }

    /// The receive once the file is read and closed: it is to be removed, or it
    /// has arrived.
    pub open spec fn closed(self, client: ClientView, bytes: Seq<u8>) -> StepView<
        ReceivingView,
        ReceivedView,
    > {
        if self.transport.delete_after_retrieve {
            self.asks(
                ReceiveWorkView::OpeningToDelete(client.next(), bytes),
                client.request(
                    wire::CREATE,
                    create_request_body(self.names[0], FILE_OPEN, FILE_DELETE_ON_CLOSE),
                ),
            )
        } else {
            self.took(client, bytes)
        }
    }

    /// The receive once the file has arrived.
    pub open spec fn took(self, client: ClientView, bytes: Seq<u8>) -> StepView<
        ReceivingView,
        ReceivedView,
    > {
        let arrived = ArrivedView {
            origin_uri: origin_of(self.transport.server, self.transport.share, self.names[0]),
            bytes,
        };
        ReceivingView {
            names: self.names.drop_first(),
            arrived: self.arrived.push(arrived),
            ..self
        }.next_file(client)
    }

    /// The receive after what was read in answer to the last message. It is
    /// over with the message that logs off and what arrived.
    pub open spec fn take(self, read: Option<MessageView>) -> Result<
        StepView<ReceivingView, ReceivedView>,
        Fault,
    > {
        match self.work {
            ReceiveWorkView::Connecting(work) => match work.take(read) {
                Err(fault) => Err(fault),
                Ok(StepView::Ask(work, request)) => Ok(
                    self.asks(ReceiveWorkView::Connecting(work), request),
                ),
                Ok(StepView::Done(client)) => {
                    let (work, request) = querying(client, "*"@);
                    Ok(self.asks(ReceiveWorkView::Listing(work), request))
                },
            },
            ReceiveWorkView::Listing(work) => match work.take(read) {
                Err(fault) => Err(fault),
                Ok(StepView::Ask(work, request)) => Ok(
                    self.asks(ReceiveWorkView::Listing(work), request),
                ),
                Ok(StepView::Done((client, names))) => Ok(self.listed(client, names)),
            },
            ReceiveWorkView::Opening(client) => match client.opened(read) {
                Err(fault) => Err(fault),
                Ok((id, length)) => match self.transport.allows(length as nat) {
                    Err(fault) => Err(fault),
                    Ok(_) => self.reads_within(id, reading(client, id, length, Seq::empty())),
                },
            },
            ReceiveWorkView::Reading(id, work) => match work.take(read) {
                Err(fault) => Err(fault),
                Ok(step) => self.reads_within(id, step),
            },
            ReceiveWorkView::Closing(client, bytes) => match client.success(read) {
                Err(fault) => Err(fault),
                Ok(_) => Ok(self.closed(client, bytes)),
            },
            ReceiveWorkView::OpeningToDelete(client, bytes) => match client.handle(read) {
                Err(fault) => Err(fault),
                Ok(id) => Ok(
                    self.asks(
                        ReceiveWorkView::Removing(client.next(), bytes),
                        client.request(wire::CLOSE, close_request_body(id)),
                    ),
                ),
            },
            ReceiveWorkView::Removing(client, bytes) => match client.success(read) {
                Err(fault) => Err(fault),
                Ok(_) => Ok(self.took(client, bytes)),
            },
        }
    }
}

/// A receive hands up no Stream longer than the largest, whatever the server
/// answers: it holds none when it starts, and takes none on the way.
pub proof fn law_no_stream_exceeds_the_largest(
    transport: SmbTransportView,
    work: ReceivingView,
    read: Option<MessageView>,
)
    ensures
        receiving(transport).0.bounded(),
        work.bounded() ==> match work.take(read) {
            Ok(StepView::Ask(next, _)) => next.bounded() && next.transport == work.transport,
            Ok(StepView::Done(received)) => all_allowed(work.transport, received.arrived),
            Err(_) => true,
        },
{
}

impl SmbTransport {
    /// Receive every file on the share, each removed once read unless the
    /// transport was told to leave them: the first message, and what takes the
    /// answers.
    pub fn receive<'a>(&'a self) -> (started: (Receiving<'a>, Message))
        ensures
            started@ == receiving(self@),
            started.0.wf(),
            started.0@.bounded(),
    {
        let (connecting, request) = self.connect();
        let progress = Progress {
            transport: self,
            names: Vec::new(),
            at: 0,
            arrived: Vec::new(),
        };
        let receiving = Receiving { progress, work: ReceiveWork::Connecting(connecting) };
        assert(receiving@.names =~= Seq::empty());
        assert(receiving@.arrived =~= Seq::empty());
        (receiving, request)
    }
}

impl<'a> Progress<'a> {
    closed spec fn model(&self, work: ReceiveWorkView) -> ReceivingView {
        ReceivingView {
            transport: self.transport@,
            names: self.names.deep_view().skip(self.at as int),
            arrived: self.arrived.deep_view(),
            work,
        }
    }

    /// Go on to the next file, or log off where there is none.
    fn next_file(self, client: Client) -> (step: Step<Receiving<'a>, Received>)
        requires
            self.at <= self.names@.len(),
            client@.next_message_id < u64::MAX,
        ensures
            step@ == self.model(ReceiveWorkView::Opening(client@)).next_file(client@),
            step matches Step::Ask(next, _) ==> next.wf(),
    {
        if self.at == self.names.len() {
            return Step::Done(Received { logoff: client.logoff(), arrived: self.arrived });
        }
        let mut client = client;
        let request = client.open(&self.names[self.at]);
        Step::Ask(Receiving { progress: self, work: ReceiveWork::Opening(client) }, request)
    }

    /// Go on with a read: the next chunk, or close the file, unless it is longer
    /// than the largest.
    fn reads(self, id: FileId, step: Step<Reading, (Client, Vec<u8>)>) -> (next: Result<
        Step<Receiving<'a>, Received>,
        TransportError,
    >)
        requires
            self.at < self.names@.len(),
            match step {
                Step::Ask(reading, _) => 0 < reading@.client.next_message_id,
                Step::Done((client, _)) => client@.next_message_id < u64::MAX,
            },
        ensures
            forall|work: ReceiveWorkView|
                agrees(next, (#[trigger] self.model(work)).reads_within(id@, step@)),
            next matches Ok(Step::Ask(next, _)) ==> next.wf(),
    {
        match step {
            Step::Ask(reading, request) => {
                let work = ReceiveWork::Reading(id, reading);
                Ok(Step::Ask(Receiving { progress: self, work }, request))
            },
            Step::Done((client, bytes)) => {
                if let Err(error) = self.transport.allows(bytes.len() as u64) {
                    return Err(error);
                }
                let mut client = client;
                let request = client.close(id);
                let work = ReceiveWork::Closing(client, bytes);
                Ok(Step::Ask(Receiving { progress: self, work }, request))
            },
        }
    }

    /// The file it is at has arrived.
    fn took(self, client: Client, bytes: Vec<u8>) -> (step: Step<Receiving<'a>, Received>)
        requires
            self.at < self.names@.len(),
            client@.next_message_id < u64::MAX,
        ensures
            forall|work: ReceiveWorkView| step@ == #[trigger] self.model(work).took(client@, bytes@),
            step matches Step::Ask(next, _) ==> next.wf(),
    {
        let name = &self.names[self.at];
        let uri = origin(&self.transport.server, &self.transport.share, name);
        let ghost whole = self.names.deep_view();
        let ghost before = self.arrived.deep_view();
        assert(self.at < self.names.len());
        let mut progress = self;
        progress.arrived.push(Arrived::new(uri, bytes));
        progress.at = progress.at + 1;
        proof {
            assert(whole.skip(self.at as int).drop_first() =~= whole.skip(self.at + 1));
            assert(progress.arrived.deep_view() =~= before.push(
                (ArrivedView { origin_uri: uri@, bytes: bytes@ }),
            ));
        }
        progress.next_file(client)
    }

    /// The file it is at was read and closed: remove it, unless files are left.
    fn closed(self, client: Client, bytes: Vec<u8>) -> (step: Step<Receiving<'a>, Received>)
        requires
            self.at < self.names@.len(),
            client@.next_message_id < u64::MAX,
        ensures
            forall|work: ReceiveWorkView|
                step@ == #[trigger] self.model(work).closed(client@, bytes@),
            step matches Step::Ask(next, _) ==> next.wf(),
    {
        if !self.transport.delete_after_retrieve {
            return self.took(client, bytes);
        }
        let mut client = client;
        let request = client.open_to_delete(&self.names[self.at]);
        let work = ReceiveWork::OpeningToDelete(client, bytes);
        Step::Ask(Receiving { progress: self, work }, request)
    }
}

impl<'a> Receiving<'a> {
    /// A message is on its way, about one of the names where it is about a
    /// file.
    pub closed spec fn wf(&self) -> bool {
        &&& 0 < self@.work.client().next_message_id
        &&& self.progress.at <= self.progress.names@.len()
        &&& self@.work.at_file() ==> self.progress.at < self.progress.names@.len()
    }

    /// True where there is an id left for another message.
    pub fn can_ask(&self) -> (can: bool)
        ensures
            can == (self@.work.client().next_message_id < u64::MAX),
    {
        match &self.work {
            ReceiveWork::Connecting(connecting) => connecting.can_ask(),
            ReceiveWork::Listing(listing) => listing.can_ask(),
            ReceiveWork::Opening(client) => client.can_ask(),
            ReceiveWork::Reading(_, reading) => reading.can_ask(),
            ReceiveWork::Closing(client, _) => client.can_ask(),
            ReceiveWork::OpeningToDelete(client, _) => client.can_ask(),
            ReceiveWork::Removing(client, _) => client.can_ask(),
        }
    }

    /// Take what was read in answer to the last message: what to send next, and
    /// in the end what arrived, with the message that logs off.
    pub fn take(self, read: Option<Message>) -> (step: Result<
        Step<Receiving<'a>, Received>,
        TransportError,
    >)
        requires
            self.wf(),
            self@.work.client().next_message_id < u64::MAX,
        ensures
            agrees(step, self@.take(read_view(read))),
            step matches Ok(Step::Ask(next, _)) ==> next.wf(),
            self@.bounded() ==> match step {
                Ok(Step::Ask(next, _)) => next@.bounded(),
                Ok(Step::Done(received)) => all_allowed(
                    self@.transport,
                    received.arrived.deep_view(),
                ),
                Err(_) => true,
            },
    {
        proof {
            law_no_stream_exceeds_the_largest(self@.transport, self@, read_view(read));
        }
        let progress = self.progress;
        match self.work {
            ReceiveWork::Connecting(connecting) => match connecting.take(read) {
                Err(error) => Err(error),
                Ok(Step::Ask(next, request)) => {
                    let work = ReceiveWork::Connecting(next);
                    Ok(Step::Ask(Receiving { progress, work }, request))
                },
                Ok(Step::Done(client)) => {
                    let (listing, request) = client.list("*");
                    let work = ReceiveWork::Listing(listing);
                    Ok(Step::Ask(Receiving { progress, work }, request))
                },
            },
            ReceiveWork::Listing(listing) => match listing.take(read) {
                Err(error) => Err(error),
                Ok(Step::Ask(next, request)) => {
                    let work = ReceiveWork::Listing(next);
                    Ok(Step::Ask(Receiving { progress, work }, request))
                },
                Ok(Step::Done((client, listed))) => {
                    let mut progress = progress;
                    progress.names = listed.names;
                    progress.at = 0;
                    assert(listed@.skip(0) =~= listed@);
                    Ok(progress.next_file(client))
                },
            },
            ReceiveWork::Opening(client) => match client.opened(read) {
                Err(error) => Err(error),
                Ok((id, length)) => match progress.transport.allows(length) {
                    Err(error) => Err(error),
                    Ok(_) => progress.reads(id, client.read_all(id, length)),
                },
            },
            ReceiveWork::Reading(id, reading) => match reading.take(read) {
                Err(error) => Err(error),
                Ok(step) => progress.reads(id, step),
            },
            ReceiveWork::Closing(client, bytes) => match client.closed(read) {
                Err(error) => Err(error),
                Ok(_) => Ok(progress.closed(client, bytes)),
            },
            ReceiveWork::OpeningToDelete(client, bytes) => match client.handle(read) {
                Err(error) => Err(error),
                Ok(id) => {
                    let mut client = client;
                    let request = client.close(id);
                    let work = ReceiveWork::Removing(client, bytes);
                    Ok(Step::Ask(Receiving { progress, work }, request))
                },
            },
            ReceiveWork::Removing(client, bytes) => match client.closed(read) {
                Err(error) => Err(error),
                Ok(_) => Ok(progress.took(client, bytes)),
            },
        }
    }
}

/// A target that is a URI is taken apart at the first slash of its path: the
/// share and the name with a slash between them are the whole path, whatever
/// slashes the name holds, and neither is empty. Where the path cannot be taken
/// apart so, the target is refused.
pub proof fn law_a_uri_is_resolved_whole(
    transport: SmbTransportView,
    target: Seq<char>,
    server: Seq<char>,
    path: Seq<char>,
    share: Seq<char>,
    name: Seq<char>,
)
    ensures
        match transport.resolve(target, Some((server, path))) {
            Ok((found_server, found_share, found_name)) => {
                &&& found_server == server
                &&& path == found_share + seq!['/'] + found_name
                &&& found_share.len() > 0
                &&& found_name.len() > 0
                &&& forall|i: int| 0 <= i < found_share.len() ==> found_share[i] != '/'
            },
            Err(fault) => {
                &&& !fault.retryable
                &&& debug_text(target).is_prefix_of(fault.message)
                &&& path != share + seq!['/'] + name || share.len() == 0 || name.len() == 0
                    || share.contains('/')
            },
        },
        path == share + seq!['/'] + name && share.len() > 0 && name.len() > 0 && !share.contains(
            '/',
        ) ==> transport.resolve(target, Some((server, path))) == Ok::<
            (Seq<char>, Seq<char>, Seq<char>),
            Fault,
        >((server, share, name)),
{
    law_a_text_is_cut_at_the_first(path, '/');
    let refused = debug_text(target) + " is not smb://host/share/name"@;
    assert(refused.take(debug_text(target).len() as int) =~= debug_text(target));
    if path == share + seq!['/'] + name && !share.contains('/') {
        assert(path[share.len() as int] == '/');
        let (before, after) = cut(path, '/')->0;
        if before.len() < share.len() {
            assert(path[before.len() as int] == '/');
            assert(share[before.len() as int] == '/');
            assert(share.contains('/'));
        }
        if share.len() < before.len() {
            assert(before[share.len() as int] == path[share.len() as int]);
        }
        assert(before =~= path.take(share.len() as int));
        assert(share =~= path.take(share.len() as int));
        assert(after =~= path.skip(share.len() as int + 1));
        assert(name =~= path.skip(share.len() as int + 1));
    }
}

/// A target that is no URI is a name on the configured server and share, as it
/// stands; it is refused exactly where it holds a slash or is empty.
pub proof fn law_a_bare_name_is_resolved_as_it_stands(
    transport: SmbTransportView,
    target: Seq<char>,
)
    ensures
        match transport.resolve(target, None) {
            Ok((server, share, name)) => {
                &&& server == transport.server
                &&& share == transport.share
                &&& name == target
                &&& target.len() > 0
                &&& forall|i: int| 0 <= i < target.len() ==> target[i] != '/'
            },
            Err(fault) => {
                &&& !fault.retryable
                &&& debug_text(target).is_prefix_of(fault.message)
                &&& transport.share.is_suffix_of(fault.message)
                &&& target.len() == 0 || exists|i: int| 0 <= i < target.len() && target[i] == '/'
            },
        },
{
    let refused = debug_text(target) + " is not a name on "@ + transport.share;
    assert(refused.take(debug_text(target).len() as int) =~= debug_text(target));
    assert(refused.skip(refused.len() - transport.share.len()) =~= transport.share);
}

/// The path of a share is two backslashes, the host, a backslash and the share,
/// where the host is the server up to its first colon, all of it where there is
/// none.
pub proof fn law_a_share_path_names_host_and_share(server: Seq<char>, share: Seq<char>, host: Seq<char>)
    requires
        host.is_prefix_of(server),
        forall|i: int| 0 <= i < host.len() ==> host[i] != ':',
        host.len() == server.len() || server[host.len() as int] == ':',
    ensures
        ({
            let path = path_of(server, share);
            &&& path.len() == 3 + host.len() + share.len()
            &&& path[0] == '\\'
            &&& path[1] == '\\'
            &&& path.subrange(2, 2 + host.len() as int) == host
            &&& path[2 + host.len() as int] == '\\'
            &&& path.skip(3 + host.len() as int) == share
        }),
{
    reveal_strlit("\\\\");
    reveal_strlit("\\");
    law_a_text_is_cut_at_the_first(server, ':');
    let path = path_of(server, share);
    match cut(server, ':') {
        Some((before, after)) => {
            assert(server[before.len() as int] == ':');
            if before.len() < host.len() {
                assert(host[before.len() as int] == server[before.len() as int]);
            }
            if host.len() < before.len() {
                assert(before[host.len() as int] == server[host.len() as int]);
            }
            assert(before =~= server.take(before.len() as int));
            assert(host =~= server.take(host.len() as int));
        },
        None => {
            assert(host =~= server.take(host.len() as int));
            assert(host =~= server);
        },
    }
    assert(path.subrange(2, 2 + host.len() as int) =~= host);
    assert(path.skip(3 + host.len() as int) =~= share);
}

/// A receive refuses a file exactly where it is longer than the largest, and
/// says how long it is and how long it may be.
pub proof fn law_a_file_is_refused_only_over_the_largest(
    transport: SmbTransportView,
    length: nat,
)
    ensures
        transport.allows(length) is Ok <==> (transport.largest matches Some(largest) ==> length
            <= largest),
        transport.allows(length) matches Err(fault) ==> !fault.retryable && fault.message
            == "a file of "@ + decimal(length) + " bytes, over the largest of "@ + decimal(
            transport.largest->0 as nat,
        ),
{
}

/// Of all that is reported, a far end keeps the first Stream that is handed up,
/// and nothing where none is.
pub proof fn law_the_first_stream_is_kept(events: Seq<EventView>)
    ensures
        match kept_of(events) {
            Some(arrived) => exists|i: int|
                0 <= i < events.len() && #[trigger] events[i] == EventView::Committed(arrived)
                    && forall|j: int| 0 <= j < i ==> !(#[trigger] events[j] is Committed),
            None => forall|i: int| 0 <= i < events.len() ==> !(#[trigger] events[i] is Committed),
        },
        taken_of(kept_of(events)) is Ok <==> exists|i: int|
            0 <= i < events.len() && #[trigger] events[i] is Committed,
    decreases events.len(),
{
    if events.len() > 0 {
        let shorter = events.drop_last();
        law_the_first_stream_is_kept(shorter);
        match kept_of(shorter) {
            Some(arrived) => {
                let i = choose|i: int|
                    0 <= i < shorter.len() && #[trigger] shorter[i] == EventView::Committed(arrived)
                        && forall|j: int| 0 <= j < i ==> !(#[trigger] shorter[j] is Committed);
                assert(events[i] == shorter[i]);
                assert forall|j: int| 0 <= j < i implies !(#[trigger] events[j] is Committed) by {
                    assert(events[j] == shorter[j]);
                }
            },
            None => {
                assert forall|j: int| 0 <= j < shorter.len() implies !(
                #[trigger] events[j] is Committed) by {
                    assert(events[j] == shorter[j]);
                }
                if let EventView::Committed(arrived) = events.last() {
                    assert(events[events.len() - 1] == EventView::Committed(arrived));
                }
            },
        }
    }
}

/// A transport keeps what it was given: each setting changes what it is about
/// and leaves the rest, and what was set is handed back. A new one speaks to the
/// server about the share as a guest, removes what it read, and knows no timeout
/// and no largest file.
pub proof fn law_a_transport_keeps_what_it_was_given(
    transport: SmbTransport,
    server: &str,
    share: &str,
    identity: Identity,
    timeout: Duration,
    largest: u64,
    made: SmbTransport,
    text: &str,
    presented: &Identity,
    waits: Option<Duration>,
)
    ensures
        call_ensures(SmbTransport::new, (server, share), made) ==> {
            &&& made@.server == server@
            &&& made@.share == share@
            &&& made@.identity.domain == "WORKGROUP"@
            &&& made@.identity.user == "xmip"@
            &&& made@.identity.workstation == "XMIP"@
            &&& made@.delete_after_retrieve
            &&& made@.timeout is None
            &&& made@.largest is None
        },
        call_ensures(SmbTransport::loopback, (timeout,), made) ==> {
            &&& made@.server == "127.0.0.1:0"@
            &&& made@.share == "xmip"@
            &&& made@.timeout == Some(timeout)
            &&& made@.delete_after_retrieve
            &&& made@.largest is None
        },
        call_ensures(SmbTransport::as_identity, (transport, identity), made) ==> {
            &&& made@.identity.domain == identity.domain@
            &&& made@.identity.user == identity.user@
            &&& made@.identity.workstation == identity.workstation@
            &&& made@.server == transport@.server && made@.share == transport@.share
            &&& made@.delete_after_retrieve == transport@.delete_after_retrieve
            &&& made@.timeout == transport@.timeout && made@.largest == transport@.largest
        },
        call_ensures(SmbTransport::leaving_files, (transport,), made) ==> {
            &&& !made@.delete_after_retrieve
            &&& made@.identity == transport@.identity
            &&& made@.server == transport@.server && made@.share == transport@.share
            &&& made@.timeout == transport@.timeout && made@.largest == transport@.largest
        },
        call_ensures(SmbTransport::timing_out_after, (transport, timeout), made) ==> {
            &&& made@.timeout == Some(timeout)
            &&& made@.identity == transport@.identity
            &&& made@.server == transport@.server && made@.share == transport@.share
            &&& made@.delete_after_retrieve == transport@.delete_after_retrieve
            &&& made@.largest == transport@.largest
        },
        call_ensures(SmbTransport::reading_at_most, (transport, largest), made) ==> {
            &&& made@.largest == Some(largest)
            &&& made@.identity == transport@.identity
            &&& made@.server == transport@.server && made@.share == transport@.share
            &&& made@.delete_after_retrieve == transport@.delete_after_retrieve
            &&& made@.timeout == transport@.timeout
        },
        call_ensures(SmbTransport::server, (&transport,), text) ==> text@ == transport@.server,
        call_ensures(SmbTransport::share, (&transport,), text) ==> text@ == transport@.share,
        call_ensures(SmbTransport::timeout, (&transport,), waits) ==> waits == transport@.timeout,
        call_ensures(SmbTransport::identity, (&transport,), presented) ==> presented@
            == transport@.identity,
{
}

/// What a target is resolved to gives the target back: the share and the name
/// with a slash between them are the path of a URI, on the server it names; a
/// target that is no URI is the name, on the configured server and share.
pub proof fn law_a_resolved_target_is_the_whole_target(
    transport: SmbTransport,
    target: &str,
    found: Option<(String, String)>,
    resolved: Result<(String, String, String), TransportError>,
)
    requires
        call_ensures(SmbTransport::resolve, (&transport, target, found), resolved),
    ensures
        match (found, resolved) {
            (Some((server, path)), Ok((to, share, name))) => {
                &&& to@ == server@
                &&& share@ + seq!['/'] + name@ == path@
                &&& share@.len() > 0
                &&& name@.len() > 0
                &&& !share@.contains('/')
            },
            (None, Ok((to, share, name))) => {
                &&& to@ == transport@.server
                &&& share@ == transport@.share
                &&& name@ == target@
            },
            (Some((server, path)), Err(_)) => {
                ||| !path@.contains('/')
                ||| path@[0] == '/'
                ||| path@.last() == '/' && !path@.drop_last().contains('/')
            },
            (None, Err(_)) => target@.len() == 0 || target@.contains('/'),
        },
{
    match found {
        Some((server, path)) => {
            law_a_text_is_cut_at_the_first(path@, '/');
            if resolved is Err && path@.contains('/') {
                let (before, after) = cut(path@, '/')->0;
                let at = before.len() as int;
                assert(path@[at] == '/');
                if after.len() == 0 && before.len() > 0 {
                    assert(path@.drop_last() =~= before);
                }
            }
            if let Ok((to, share, name)) = resolved {
                assert(resolved->Ok_0@ == (to@, share@, name@));
            }
        },
        None => {
            law_a_bare_name_is_resolved_as_it_stands(transport@, target@);
            if let Ok((to, share, name)) = resolved {
                assert(resolved->Ok_0@ == (to@, share@, name@));
            }
        },
    }
}

/// The path of a share begins with two backslashes and the server up to its first
/// colon, and ends with a backslash and the share.
pub proof fn law_a_share_path_is_put_together_whole(server: &str, share: &str, path: String)
    requires
        call_ensures(SmbTransport::share_path, (server, share), path),
    ensures
        ({
            let host = path@.subrange(2, path@.len() - share@.len() - 1);
            &&& path@.len() >= 3 + share@.len()
            &&& path@.take(2) == seq!['\\', '\\']
            &&& path@.skip(path@.len() - share@.len() - 1) == seq!['\\'] + share@
            &&& host.is_prefix_of(server@)
            &&& !host.contains(':')
            &&& host.len() == server@.len() || server@[host.len() as int] == ':'
        }),
{
    reveal_strlit("\\\\");
    reveal_strlit("\\");
    law_a_text_is_cut_at_the_first(server@, ':');
    let host = host_of(server@);
    let tail = path@.len() - share@.len() - 1;
    assert(path@.take(2) =~= seq!['\\', '\\']);
    assert(path@.subrange(2, tail) =~= host);
    assert(path@.skip(tail) =~= seq!['\\'] + share@);
    assert(server@.take(host.len() as int) =~= host);
}

/// A send and a receive start by connecting the path of the server and the share
/// that are meant, as the identity of the transport. A send is about the name and
/// the bytes that were given, a receive has taken nothing yet.
pub proof fn law_transfers_start_by_connecting_their_share(
    transport: SmbTransportView,
    server: Seq<char>,
    share: Seq<char>,
    name: Seq<char>,
    bytes: Seq<u8>,
)
    ensures
        ({
            let (work, request) = sending(transport.identity, server, share, name, bytes);
            &&& work.name == name
            &&& work.bytes == bytes
            &&& work.work matches SendWorkView::Connecting(connection)
            &&& connection.stage == Stage::Negotiating
            &&& connection.path == path_of(server, share)
            &&& connection.identity == transport.identity
            &&& request.command == 0
            &&& request.message_id == 0
        }),
        ({
            let (work, request) = receiving(transport);
            &&& work.transport == transport
            &&& work.arrived.len() == 0
            &&& work.work matches ReceiveWorkView::Connecting(connection)
            &&& connection.stage == Stage::Negotiating
            &&& connection.path == path_of(transport.server, transport.share)
            &&& connection.identity == transport.identity
            &&& request.command == 0
            &&& request.message_id == 0
        }),
{
}

/// Once connected, a receive lists every file: it opens the root of the share and
/// asks for whatever name there is.
pub proof fn law_a_receive_lists_every_name(
    work: ReceivingView,
    connection: ConnectingView,
    read: Option<MessageView>,
)
    requires
        work.work == ReceiveWorkView::Connecting(connection),
        connection.stage == Stage::TreeConnecting,
    ensures
        work.take(read) matches Ok(step) ==> {
            &&& step matches StepView::Ask(next, request)
            &&& next.work matches ReceiveWorkView::Listing(listing)
            &&& listing.pattern == seq!['*']
            &&& listing.query is OpeningRoot
            &&& listing.client.tree_id == read->0.tree_id
            &&& request.command == 5
            &&& request.tree_id == read->0.tree_id
        },
{
    reveal_strlit("*");
    assert("*"@ =~= seq!['*']);
}

/// A client logs off with a message of its own session that names no tree.
pub proof fn law_a_client_logs_off_its_session(client: ClientView)
    ensures
        logoff_of(client).command == 2,
        logoff_of(client).session_id == client.session_id,
        logoff_of(client).message_id == client.next_message_id,
        logoff_of(client).tree_id == 0,
        logoff_of(client).body == seq![4u8, 0, 0, 0],
{
}

} // verus!
