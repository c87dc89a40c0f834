//! A session at the far end of a connection, a message and an answer at a time:
//! what each request of a client does there, and what the client makes of the
//! answer.

use vstd::prelude::*;

use crate::accepting::{AcceptView, AcceptingView, DueView};
use crate::arrived::{origin_of, ArrivedView};
use crate::client::{
    accepted, connecting, listed_in, status_fault, visible, ClientView, ConnectingView, Stage,
    StepView, CHUNK,
};
use crate::directory;
use crate::directory::{entries, law_listing_reads_back, law_query_reads_back, names_in};
use crate::error::{permanent_fault, Fault};
use crate::handles::OpenView;
use crate::message::{
    close_request_body, close_response_body, create_fields_in, create_request_body,
    create_response_body, created_in, data_in, file_id, id_at, law_close_request_reads_back,
    law_create_request_reads_back, law_create_response_reads_back, law_file_ids_differ,
    law_read_request_reads_back, law_read_response_reads_back, law_session_token_reads_back,
    law_tree_connect_reads_back, law_write_request_reads_back, law_write_response_reads_back,
    length32, negotiate_request_body, negotiate_response_body, path_in, read_fields_in,
    read_request_body, read_response_body, session_setup_body, token_in,
    tree_connect_request_body, tree_connect_response_body, write_fields_in, write_request_body,
    write_response_body, FILE_DELETE_ON_CLOSE, FILE_DIRECTORY, FILE_OPEN, FILE_OVERWRITE_IF,
};
use crate::ntlm::IdentityView;
use crate::ntlmssp::{
    authentication, flags_in, identity_in, law_a_negotiate_asks_for_its_flags,
    law_an_authenticate_names_its_identity, negotiation, nonce_in,
};
use crate::session::{
    content, handed_out, has_option, overwritten, refusal, AfterView,
    EventView, ReplyView, SessionView, SHARE,
};
use crate::share::{law_listing_is_unique, listing, lists};
use crate::text::past_last;
use crate::transfer::{host_of, path_of};
use crate::utf16::utf16;
use crate::wire;
use crate::wire::{bare_request, u32_at, MessageView, HEADER, MAX_MESSAGE};

verus! {

/// How far a session has come.
pub enum Phase {
    /// Its client is being accepted, and this is due.
    Accepting(DueView),
    /// It serves its client.
    Serving,
    /// It ended in this failure.
    Refused(Fault),
}

/// The server at the far end: its session, how far that has come, what comes of
/// reading the flags a client's first token asks for and the identity its second
/// one names, the challenge it offers, and what it has reported.
pub struct FarEnd {
    pub session: SessionView,
    pub phase: Phase,
    pub reads: spec_fn(Seq<u8>) -> Result<u32, Seq<char>>,
    pub identifies: spec_fn(Seq<u8>) -> Result<(), Seq<char>>,
    pub offer: Seq<u8>,
    pub events: Seq<EventView>,
}

impl FarEnd {
    /// The far end as its client is accepted further.
    pub open spec fn accepting(self, next: AcceptingView) -> FarEnd {
        FarEnd { session: next.session, phase: Phase::Accepting(next.due), ..self }
    }

    /// The far end after `request` and its answer; `None` where the session
    /// cannot carry it out.
    #[verifier::opaque]
    pub open spec fn takes(self, request: MessageView) -> Option<
        Result<(FarEnd, MessageView), Fault>,
    > {
        match self.phase {
            Phase::Accepting(due) => {
                let accepting = AcceptingView { session: self.session, due };
                match accepting.take(Some(request)) {
                    Err(fault) => Some(Err(fault)),
                    Ok(AcceptView::Answer(next, answer)) => Some(
                        Ok((self.accepting(next), answer)),
                    ),
                    Ok(AcceptView::Negotiate(next, token)) => match (self.reads)(token) {
                        Err(message) => Some(Err(permanent_fault(message))),
                        Ok(_) => {
                            let (next, answer) = next.offer(self.offer);
                            Some(Ok((self.accepting(next), answer)))
                        },
                    },
                    Ok(AcceptView::Authenticate(next, token)) => match next.confirm(
                        (self.identifies)(token),
                    ) {
                        Err(fault) => Some(Err(fault)),
                        Ok((next, answer)) => Some(Ok((self.accepting(next), answer))),
                    },
                    Ok(AcceptView::Connected(session, answer)) => Some(
                        Ok((FarEnd { session, phase: Phase::Serving, ..self }, answer)),
                    ),
                    Ok(AcceptView::Refused(answer, fault)) => Some(
                        Ok((FarEnd { phase: Phase::Refused(fault), ..self }, answer)),
                    ),
                }
            },
            Phase::Serving => if !self.session.admits(request) {
                None
            } else {
                match self.session.serve(request) {
                    Err(fault) => Some(Err(fault)),
                    Ok((served, reply)) => {
                        let (session, event) = served.settle(reply.after);
                        let events = match event {
                            Some(event) => self.events.push(event),
                            None => self.events,
                        };
                        Some(Ok((FarEnd { session, events, ..self }, reply.answer)))
                    },
                }
            },
            Phase::Refused(fault) => Some(Err(fault)),
        }
    }

    /// The far end after `request` and its answer have crossed the wire; `None`
    /// where one of them is too large for it, or the session cannot carry the
    /// request out.
    #[verifier::opaque]
    pub open spec fn answers(self, request: MessageView) -> Option<
        Result<(FarEnd, MessageView), Fault>,
    > {
        if !request.fits() {
            None
        } else {
            match self.takes(request) {
                Some(Ok((after, answer))) => if answer.fits() {
                    Some(Ok((after, answer)))
                } else {
                    None
                },
                other => other,
            }
        }
    }
}

/// No file is open under the id that is handed out next.
pub(crate) proof fn lemma_next_id_is_free(session: SessionView)
    requires
        session.valid(),
    ensures
        !session.handles.dom().contains(file_id(session.next_handle)),
{
    let id = file_id(session.next_handle);
    if session.handles.dom().contains(id) {
        let seed = choose|seed: u64| seed < session.next_handle && id == #[trigger] file_id(seed);
        law_file_ids_differ(seed, session.next_handle);
    }
}

/// A session that carries out a request stays valid: no id it hands out is
/// open already, and it stays the session it was.
pub proof fn law_session_stays_valid(session: SessionView, request: MessageView)
    requires
        session.valid(),
        session.admits(request),
    ensures
        match session.serve(request) {
            Ok((served, reply)) => {
                let (settled, _) = served.settle(reply.after);
                &&& served.valid()
                &&& settled.valid()
                &&& settled.id == session.id
                &&& settled.peer == session.peer
                &&& settled.tree == session.tree
                &&& session.next_handle <= settled.next_handle
            },
            Err(_) => true,
        },
        !session.handles.dom().contains(file_id(session.next_handle)),
{
    lemma_next_id_is_free(session);
    if let Ok((served, reply)) = session.serve(request) {
        let (settled, _) = served.settle(reply.after);
        assert forall|id: Seq<u8>| #[trigger] served.handles.dom().contains(id) implies handed_out(
            id,
            served.next_handle,
        ) by {
            if session.handles.dom().contains(id) {
                let seed = choose|seed: u64|
                    seed < session.next_handle && id == #[trigger] file_id(seed);
                assert(seed < served.next_handle && id == file_id(seed));
            } else {
                assert(id == file_id(session.next_handle));
            }
        }
    }
}

/// A body that fits in a message.
spec fn is_small(body: Seq<u8>) -> bool {
    HEADER + body.len() <= MAX_MESSAGE
}

/// The body is a session setup with this token.
#[verifier::opaque]
spec fn carries(body: Seq<u8>, token: Seq<u8>) -> bool {
    is_small(body) && token_in(body) == Ok::<Seq<u8>, Fault>(token)
}

/// The body is a tree connect for this path.
#[verifier::opaque]
spec fn asks_tree(body: Seq<u8>, path: Seq<char>) -> bool {
    is_small(body) && path_in(body) == Ok::<Seq<char>, Fault>(path)
}

/// The body is a create of this name.
#[verifier::opaque]
spec fn asks_create(body: Seq<u8>, name: Seq<char>, disposition: u32, options: u32) -> bool {
    is_small(body) && create_fields_in(body) == Ok::<(Seq<char>, u32, u32), Fault>(
        (name, disposition, options),
    )
}

/// The body hands out this id for a file of this length.
#[verifier::opaque]
spec fn hands_out(body: Seq<u8>, id: Seq<u8>, length: u64) -> bool {
    is_small(body) && created_in(body) == Ok::<(Seq<u8>, u64), Fault>((id, length))
}

/// The body is a write of this data.
#[verifier::opaque]
spec fn asks_write(body: Seq<u8>, id: Seq<u8>, offset: u64, data: Seq<u8>) -> bool {
    is_small(body) && write_fields_in(body) == Ok::<(Seq<u8>, u64, Seq<u8>), Fault>(
        (id, offset, data),
    )
}

/// The body is a read of these bytes.
#[verifier::opaque]
spec fn asks_read(body: Seq<u8>, id: Seq<u8>, offset: u64, length: u32) -> bool {
    is_small(body) && read_fields_in(body) == Ok::<(Seq<u8>, u64, u32), Fault>(
        (id, offset, length),
    )
}

/// The body holds this data.
#[verifier::opaque]
spec fn holds(body: Seq<u8>, data: Seq<u8>) -> bool {
    is_small(body) && data_in(body) == Ok::<Seq<u8>, Fault>(data)
}

/// The body names this id, where a close and a query name it.
#[verifier::opaque]
spec fn asks_id(body: Seq<u8>, id: Seq<u8>) -> bool {
    is_small(body) && id_at(body, 8) == Ok::<Seq<u8>, Fault>(id)
}

/// The body lists these names.
#[verifier::opaque]
spec fn lists_names(body: Seq<u8>, names: Seq<Seq<char>>) -> bool {
    is_small(body) && names_in(body) == Ok::<Seq<Seq<char>>, Fault>(names)
}

proof fn lemma_carries(is_response: bool, token: Seq<u8>)
    requires
        token.len() <= 0xFFFF,
    ensures
        carries(session_setup_body(is_response, token), token),
{
    law_session_token_reads_back(is_response, token);
    reveal(carries);
}

proof fn lemma_asks_tree(path: Seq<char>)
    requires
        utf16(path).len() <= 0xFFFF,
    ensures
        asks_tree(tree_connect_request_body(path), path),
{
    law_tree_connect_reads_back(path);
    reveal(asks_tree);
}

proof fn lemma_asks_create(name: Seq<char>, disposition: u32, options: u32)
    requires
        utf16(name).len() <= 0xFFFF,
    ensures
        asks_create(
            create_request_body(name, disposition, options),
            name,
            disposition,
            options,
        ),
{
    law_create_request_reads_back(name, disposition, options);
    reveal(asks_create);
}

proof fn lemma_hands_out(id: Seq<u8>, length: u64)
    requires
        id.len() == 16,
    ensures
        hands_out(create_response_body(id, length), id, length),
{
    law_create_response_reads_back(id, length);
    reveal(hands_out);
}

proof fn lemma_asks_write(id: Seq<u8>, offset: u64, data: Seq<u8>)
    requires
        id.len() == 16,
        data.len() <= CHUNK,
    ensures
        asks_write(write_request_body(id, offset, data), id, offset, data),
{
    law_write_request_reads_back(id, offset, data);
    reveal(asks_write);
}

proof fn lemma_asks_read(id: Seq<u8>, offset: u64, length: u32)
    requires
        id.len() == 16,
    ensures
        asks_read(read_request_body(id, offset, length), id, offset, length),
{
    law_read_request_reads_back(id, offset, length);
    reveal(asks_read);
}

proof fn lemma_holds(data: Seq<u8>)
    requires
        data.len() <= CHUNK,
    ensures
        holds(read_response_body(data), data),
{
    law_read_response_reads_back(data);
    reveal(holds);
}

proof fn lemma_asks_close(id: Seq<u8>)
    requires
        id.len() == 16,
    ensures
        asks_id(close_request_body(id), id),
{
    law_close_request_reads_back(id);
    reveal(asks_id);
}

proof fn lemma_asks_listing(id: Seq<u8>, pattern: Seq<char>)
    requires
        id.len() == 16,
        utf16(pattern).len() <= 0xFFFF,
    ensures
        asks_id(directory::request_body(id, pattern), id),
{
    law_query_reads_back(id, pattern);
    reveal(asks_id);
}

proof fn lemma_lists_names(names: Seq<Seq<char>>)
    requires
        entries(names).len() + HEADER + 8 <= MAX_MESSAGE,
    ensures
        lists_names(directory::response_body(names), names),
{
    law_listing_reads_back(names);
    reveal(lists_names);
}

proof fn lemma_crosses(
    far: FarEnd,
    request: MessageView,
    after: FarEnd,
    answer: MessageView,
)
    requires
        far.takes(request) == Some(Ok::<(FarEnd, MessageView), Fault>((after, answer))),
        is_small(request.body),
        is_small(answer.body),
    ensures
        far.answers(request) == Some(Ok::<(FarEnd, MessageView), Fault>((after, answer))),
{
    reveal(FarEnd::answers);
}

/// A connection that has asked as far as `stage`, its session known as `id`.
spec fn connection(
    path: Seq<char>,
    identity: IdentityView,
    stage: Stage,
    id: u64,
) -> ConnectingView {
    let asked: u64 = match stage {
        Stage::Negotiating => 1,
        Stage::SettingUp => 2,
        Stage::LoggingOn => 3,
        Stage::TreeConnecting => 4,
    };
    ConnectingView {
        client: ClientView { session_id: id, tree_id: 0, next_message_id: asked },
        path,
        identity,
        stage,
    }
}

/// The message a connection at `stage` sent last.
spec fn connection_request(
    path: Seq<char>,
    identity: IdentityView,
    stage: Stage,
    id: u64,
) -> MessageView {
    let message = match stage {
        Stage::Negotiating => connecting(path, identity).1,
        Stage::SettingUp => bare_request(
            wire::SESSION_SETUP,
            1,
            session_setup_body(false, negotiation()),
        ),
        Stage::LoggingOn => bare_request(
            wire::SESSION_SETUP,
            2,
            session_setup_body(false, authentication(identity)),
        ),
        Stage::TreeConnecting => bare_request(
            wire::TREE_CONNECT,
            3,
            tree_connect_request_body(path),
        ),
    };
    MessageView { session_id: id, ..message }
}

/// A connection that has asked as far as `stage`, and what it asked last.
spec fn asked(path: Seq<char>, identity: IdentityView, stage: Stage, id: u64) -> StepView<
    ConnectingView,
    ClientView,
> {
    StepView::Ask(
        connection(path, identity, stage, id),
        connection_request(path, identity, stage, id),
    )
}

/// The client once the tree is connected.
pub open spec fn connected_client(id: u64) -> ClientView {
    ClientView { session_id: id, tree_id: 1, next_message_id: 4 }
}

proof fn lemma_setup_is_taken(far: FarEnd, request: MessageView, token: Seq<u8>)
    requires
        request.command == wire::SESSION_SETUP,
        carries(request.body, token),
        far.phase == Phase::Accepting(DueView::Setup) ==> (far.reads)(token) is Ok,
        far.phase == Phase::Accepting(DueView::Logon) ==> (far.identifies)(token) is Ok,
    ensures
        is_small(request.body),
        far.phase == Phase::Accepting(DueView::Setup) ==> far.takes(request) == Some(
            Ok::<(FarEnd, MessageView), Fault>(
                (
                    FarEnd { phase: Phase::Accepting(DueView::Logon), ..far },
                    far.session.challenge(request, far.offer),
                ),
            ),
        ),
        far.phase == Phase::Accepting(DueView::Logon) ==> far.takes(request) == Some(
            Ok::<(FarEnd, MessageView), Fault>(
                (
                    FarEnd { phase: Phase::Accepting(DueView::Tree), ..far },
                    request.answer(
                        wire::STATUS_SUCCESS,
                        session_setup_body(true, Seq::empty()),
                    ),
                ),
            ),
        ),
{
    reveal(carries);
    reveal(FarEnd::takes);
}

proof fn lemma_is_challenged(work: ConnectingView, answer: MessageView, token: Seq<u8>)
    requires
        work.stage == Stage::SettingUp,
        answer.message_id == work.client.asked(),
        answer.status == wire::STATUS_MORE_PROCESSING,
        carries(answer.body, token),
        nonce_in(token) is Ok,
    ensures
        is_small(answer.body),
        ({
            let client = ClientView { session_id: answer.session_id, ..work.client };
            work.take(Some(answer)) == Ok::<StepView<ConnectingView, ClientView>, Fault>(
                StepView::Ask(
                    ConnectingView { client: client.next(), stage: Stage::LoggingOn, ..work },
                    client.request(
                        wire::SESSION_SETUP,
                        session_setup_body(false, authentication(work.identity)),
                    ),
                ),
            )
        }),
{
    reveal(carries);
}

/// A far end that waits for its first message answers a client's negotiate, and
/// the client goes on to set up its session.
proof fn lemma_negotiates(
    path: Seq<char>,
    identity: IdentityView,
    far: FarEnd,
) -> (answer: MessageView)
    requires
        far.phase == Phase::Accepting(DueView::Negotiate),
    ensures
        connecting(path, identity) == (
            connection(path, identity, Stage::Negotiating, 0),
            connection_request(path, identity, Stage::Negotiating, 0),
        ),
        far.answers(connection_request(path, identity, Stage::Negotiating, 0)) == Some(
            Ok::<(FarEnd, MessageView), Fault>(
                (FarEnd { phase: Phase::Accepting(DueView::Setup), ..far }, answer),
            ),
        ),
        connection(path, identity, Stage::Negotiating, 0).take(Some(answer)) == Ok::<
            StepView<ConnectingView, ClientView>,
            Fault,
        >(
            StepView::Ask(
                connection(path, identity, Stage::SettingUp, 0),
                connection_request(path, identity, Stage::SettingUp, 0),
            ),
        ),
{
    let request = connection_request(path, identity, Stage::Negotiating, 0);
    let answer = request.answer(wire::STATUS_SUCCESS, negotiate_response_body());
    assert(negotiate_request_body().len() == 38);
    assert(negotiate_response_body().len() == 64);
    assert(far.takes(request) == Some(
        Ok::<(FarEnd, MessageView), Fault>((FarEnd { phase: Phase::Accepting(DueView::Setup), ..far }, answer)),
    )) by {
        reveal(FarEnd::takes);
    }
    lemma_crosses(far, request, FarEnd { phase: Phase::Accepting(DueView::Setup), ..far }, answer);
    answer
}

/// A far end answers a client's session setup with its challenge, and the
/// client goes on to log on.
proof fn lemma_sets_up(path: Seq<char>, identity: IdentityView, far: FarEnd) -> (answer:
    MessageView)
    requires
        far.phase == Phase::Accepting(DueView::Setup),
        far.offer.len() <= 0xFFFF,
        nonce_in(far.offer) is Ok,
        (far.reads)(negotiation()) is Ok,
    ensures
        far.answers(connection_request(path, identity, Stage::SettingUp, 0)) == Some(
            Ok::<(FarEnd, MessageView), Fault>(
                (FarEnd { phase: Phase::Accepting(DueView::Logon), ..far }, answer),
            ),
        ),
        connection(path, identity, Stage::SettingUp, 0).take(Some(answer)) == Ok::<
            StepView<ConnectingView, ClientView>,
            Fault,
        >(
            StepView::Ask(
                connection(path, identity, Stage::LoggingOn, far.session.id),
                connection_request(path, identity, Stage::LoggingOn, far.session.id),
            ),
        ),
{
    let request = connection_request(path, identity, Stage::SettingUp, 0);
    let token = negotiation();
    assert(token.len() == 40);
    lemma_carries(false, token);
    lemma_carries(true, far.offer);
    lemma_setup_is_taken(far, request, token);
    let answer = far.session.challenge(request, far.offer);
    let work = connection(path, identity, Stage::SettingUp, 0);
    lemma_is_challenged(work, answer, far.offer);
    lemma_crosses(far, request, FarEnd { phase: Phase::Accepting(DueView::Logon), ..far }, answer);
    answer
}

/// A far end answers a client's logon, and the client goes on to connect its
/// tree.
proof fn lemma_logs_on(path: Seq<char>, identity: IdentityView, far: FarEnd) -> (answer:
    MessageView)
    requires
        far.phase == Phase::Accepting(DueView::Logon),
        authentication(identity).len() <= 0xFFFF,
        (far.identifies)(authentication(identity)) is Ok,
    ensures
        far.answers(
            connection_request(path, identity, Stage::LoggingOn, far.session.id),
        ) == Some(
            Ok::<(FarEnd, MessageView), Fault>(
                (FarEnd { phase: Phase::Accepting(DueView::Tree), ..far }, answer),
            ),
        ),
        connection(path, identity, Stage::LoggingOn, far.session.id).take(Some(answer)) == Ok::<
            StepView<ConnectingView, ClientView>,
            Fault,
        >(
            StepView::Ask(
                connection(path, identity, Stage::TreeConnecting, far.session.id),
                connection_request(path, identity, Stage::TreeConnecting, far.session.id),
            ),
        ),
{
    let request = connection_request(path, identity, Stage::LoggingOn, far.session.id);
    let none = Seq::<u8>::empty();
    lemma_carries(false, authentication(identity));
    lemma_carries(true, none);
    lemma_setup_is_taken(far, request, authentication(identity));
    let answer = request.answer(wire::STATUS_SUCCESS, session_setup_body(true, none));
    assert(is_small(answer.body)) by {
        reveal(carries);
    }
    lemma_crosses(far, request, FarEnd { phase: Phase::Accepting(DueView::Tree), ..far }, answer);
    answer
}

proof fn lemma_tree_is_taken(far: FarEnd, request: MessageView, path: Seq<char>)
    requires
        far.phase == Phase::Accepting(DueView::Tree),
        request.command == wire::TREE_CONNECT,
        asks_tree(request.body, path),
    ensures
        is_small(request.body),
        ({
            let share = past_last(path, '\\');
            if share == SHARE@ {
                far.takes(request) == Some(
                    Ok::<(FarEnd, MessageView), Fault>(
                        (
                            FarEnd {
                                session: SessionView { tree: share, ..far.session },
                                phase: Phase::Serving,
                                ..far
                            },
                            MessageView {
                                tree_id: 1,
                                ..request.answer(
                                    wire::STATUS_SUCCESS,
                                    tree_connect_response_body(),
                                )
                            },
                        ),
                    ),
                )
            } else {
                far.takes(request) == Some(
                    Ok::<(FarEnd, MessageView), Fault>(
                        (
                            FarEnd { phase: Phase::Refused(refusal(share)), ..far },
                            MessageView {
                                tree_id: 1,
                                ..request.answer(
                                    wire::STATUS_BAD_NETWORK_NAME,
                                    Seq::empty(),
                                )
                            },
                        ),
                    ),
                )
            }
        }),
{
    reveal(asks_tree);
    reveal(FarEnd::takes);
}

/// A far end answers a client's tree connect: the client is connected, or told
/// that there is no such share.
proof fn lemma_connects_tree(
    path: Seq<char>,
    identity: IdentityView,
    far: FarEnd,
) -> (answered: (FarEnd, MessageView))
    requires
        far.phase == Phase::Accepting(DueView::Tree),
        utf16(path).len() <= 0xFFFF,
    ensures
        far.answers(
            connection_request(path, identity, Stage::TreeConnecting, far.session.id),
        ) == Some(Ok::<(FarEnd, MessageView), Fault>(answered)),
        ({
            let share = past_last(path, '\\');
            let step = connection(path, identity, Stage::TreeConnecting, far.session.id).take(
                Some(answered.1),
            );
            if share == SHARE@ {
                &&& answered.0 == (FarEnd {
                    session: SessionView { tree: share, ..far.session },
                    phase: Phase::Serving,
                    ..far
                })
                &&& step == Ok::<StepView<ConnectingView, ClientView>, Fault>(
                    StepView::Done(connected_client(far.session.id)),
                )
            } else {
                &&& answered.0 == (FarEnd { phase: Phase::Refused(refusal(share)), ..far })
                &&& step == Err::<StepView<ConnectingView, ClientView>, Fault>(
                    status_fault("the server answered"@, wire::STATUS_BAD_NETWORK_NAME),
                )
            }
        }),
{
    let request = connection_request(path, identity, Stage::TreeConnecting, far.session.id);
    lemma_asks_tree(path);
    lemma_tree_is_taken(far, request, path);
    let share = past_last(path, '\\');
    assert(tree_connect_response_body().len() == 16);
    let (after, answer) = if share == SHARE@ {
        (
            FarEnd {
                session: SessionView { tree: share, ..far.session },
                phase: Phase::Serving,
                ..far
            },
            MessageView {
                tree_id: 1,
                ..request.answer(wire::STATUS_SUCCESS, tree_connect_response_body())
            },
        )
    } else {
        (
            FarEnd { phase: Phase::Refused(refusal(share)), ..far },
            MessageView {
                tree_id: 1,
                ..request.answer(wire::STATUS_BAD_NETWORK_NAME, Seq::empty())
            },
        )
    };
    lemma_crosses(far, request, after, answer);
    (after, answer)
}

proof fn lemma_past_last(before: Seq<char>, at: char, after: Seq<char>)
    requires
        !after.contains(at),
    ensures
        past_last(before.push(at) + after, at) == after,
    decreases after.len(),
{
    let text = before.push(at) + after;
    if after.len() == 0 {
        assert(text.last() == at);
        assert(after =~= Seq::empty());
    } else {
        let shorter = after.drop_last();
        assert(after.contains(after.last()));
        assert forall|c: char| shorter.contains(c) implies after.contains(c) by {
            let i = choose|i: int| 0 <= i < shorter.len() && shorter[i] == c;
            assert(after[i] == c);
        }
        lemma_past_last(before, at, shorter);
        assert(text.drop_last() =~= before.push(at) + shorter);
        assert(text.last() == after.last());
        assert(shorter.push(after.last()) =~= after);
    }
}

/// The share that a tree connect for `share` at `server` asks for is `share`.
pub proof fn law_share_is_the_end_of_its_path(server: Seq<char>, share: Seq<char>)
    requires
        !share.contains('\\'),
    ensures
        past_last(path_of(server, share), '\\') == share,
{
    reveal_strlit("\\");
    let before = "\\\\"@ + host_of(server);
    lemma_past_last(before, '\\', share);
    assert(path_of(server, share) =~= before.push('\\') + share);
}

pub(crate) proof fn lemma_served_share()
    ensures
        !SHARE@.contains('\\'),
{
    reveal_strlit("xmip");
}

/// What a client may start from at the far end: a valid session that waits for
/// its first message, with an offer that is read as a challenge.
pub open spec fn ready(far: FarEnd) -> bool {
    &&& far.phase == Phase::Accepting(DueView::Negotiate)
    &&& far.session.valid()
    &&& far.offer.len() <= 0xFFFF
    &&& nonce_in(far.offer) is Ok
}

/// The far end can read both tokens that a client sends as `identity`.
pub open spec fn recognizes(far: FarEnd, identity: IdentityView) -> bool {
    &&& (far.reads)(negotiation()) is Ok
    &&& (far.identifies)(authentication(identity)) is Ok
}

/// What a client sends of itself and of the tree it connects is short enough to
/// be counted.
pub open spec fn presentable(identity: IdentityView, server: Seq<char>, share: Seq<char>) -> bool {
    &&& authentication(identity).len() <= 0xFFFF
    &&& utf16(path_of(server, share)).len() <= 0xFFFF
}

/// A far end that can read whatever is laid out as NTLM's messages are can read
/// the tokens of every client whose identity is short enough to be counted.
pub proof fn law_clients_are_recognized(far: FarEnd, identity: IdentityView)
    requires
        forall|token: Seq<u8>| flags_in(token) is Ok ==> #[trigger] (far.reads)(token) is Ok,
        forall|token: Seq<u8>|
            identity_in(token) is Ok ==> #[trigger] (far.identifies)(token) is Ok,
        authentication(identity).len() <= 0xFFFF,
    ensures
        recognizes(far, identity),
{
    law_a_negotiate_asks_for_its_flags();
    law_an_authenticate_names_its_identity(identity);
}

/// The far end once the tree is connected.
pub open spec fn serving(far: FarEnd) -> FarEnd {
    FarEnd {
        session: SessionView { tree: SHARE@, ..far.session },
        phase: Phase::Serving,
        ..far
    }
}

/// A connection that has come to `step`, and the far end, after `turns` more
/// messages and answers: what became of the far end, the client or the failure
/// the connection ends in, and the turns that are left. `None` where it takes
/// more turns.
#[verifier::opaque]
pub open spec fn connects(
    step: StepView<ConnectingView, ClientView>,
    far: FarEnd,
    turns: nat,
) -> Option<(FarEnd, Result<ClientView, Fault>, nat)>
    decreases turns,
{
    match step {
        StepView::Done(client) => Some((far, Ok(client), turns)),
        StepView::Ask(connecting, request) => if turns == 0 {
            None
        } else {
            let left = (turns - 1) as nat;
            match far.answers(request) {
                None => None,
                Some(Err(fault)) => Some((far, Err(fault), left)),
                Some(Ok((after, answer))) => match connecting.take(Some(answer)) {
                    Err(fault) => Some((after, Err(fault), left)),
                    Ok(next) => connects(next, after, left),
                },
            }
        },
    }
}

/// A client that connects is served where it asks for the share that is served,
/// and refused where it asks for another.
pub proof fn law_a_client_is_connected(
    identity: IdentityView,
    server: Seq<char>,
    share: Seq<char>,
    far: FarEnd,
    turns: nat,
)
    requires
        ready(far),
        recognizes(far, identity),
        presentable(identity, server, share),
        !share.contains('\\'),
        turns >= 4,
    ensures
        ({
            let (start, request) = connecting(path_of(server, share), identity);
            let outcome = connects(StepView::Ask(start, request), far, turns);
            let left = (turns - 4) as nat;
            if share == SHARE@ {
                outcome == Some(
                    (serving(far), Ok::<ClientView, Fault>(connected_client(far.session.id)), left),
                )
            } else {
                outcome == Some(
                    (
                        FarEnd { phase: Phase::Refused(refusal(share)), ..far },
                        Err::<ClientView, Fault>(
                            status_fault("the server answered"@, wire::STATUS_BAD_NETWORK_NAME),
                        ),
                        left,
                    ),
                )
            }
        }),
{
    let path = path_of(server, share);
    let id = far.session.id;
    law_share_is_the_end_of_its_path(server, share);
    let _ = lemma_negotiates(path, identity, far);
    let setting_up = FarEnd { phase: Phase::Accepting(DueView::Setup), ..far };
    let _ = lemma_sets_up(path, identity, setting_up);
    let logging_on = FarEnd { phase: Phase::Accepting(DueView::Logon), ..far };
    let _ = lemma_logs_on(path, identity, logging_on);
    let connecting_tree = FarEnd { phase: Phase::Accepting(DueView::Tree), ..far };
    let (after, _) = lemma_connects_tree(path, identity, connecting_tree);
    let first = asked(path, identity, Stage::Negotiating, 0);
    let second = asked(path, identity, Stage::SettingUp, 0);
    let third = asked(path, identity, Stage::LoggingOn, id);
    let fourth = asked(path, identity, Stage::TreeConnecting, id);
    assert(connects(first, far, turns) == connects(second, setting_up, (turns - 1) as nat)) by {
        reveal(connects);
    }
    assert(connects(second, setting_up, (turns - 1) as nat) == connects(
        third,
        logging_on,
        (turns - 2) as nat,
    )) by {
        reveal(connects);
    }
    assert(connects(third, logging_on, (turns - 2) as nat) == connects(
        fourth,
        connecting_tree,
        (turns - 3) as nat,
    )) by {
        reveal(connects);
    }
    if share == SHARE@ {
        let done = StepView::<ConnectingView, ClientView>::Done(connected_client(id));
        assert(connects(fourth, connecting_tree, (turns - 3) as nat) == connects(
            done,
            serving(far),
            (turns - 4) as nat,
        )) by {
            reveal(connects);
        }
        reveal(connects);
    } else {
        reveal(connects);
    }
}

/// The far end once it has handed out a handle for `name`.
pub open spec fn with_open(far: FarEnd, name: Seq<char>, disposition: u32, options: u32) -> FarEnd {
    let session = far.session;
    let files = if disposition == FILE_OVERWRITE_IF {
        session.files.insert(name, Seq::empty())
    } else {
        session.files
    };
    let open = OpenView {
        name,
        written: false,
        delete_on_close: has_option(options, FILE_DELETE_ON_CLOSE),
    };
    FarEnd {
        session: SessionView {
            files,
            handles: session.handles.insert(file_id(session.next_handle), open),
            next_handle: (session.next_handle + 1) as u64,
            ..session
        },
        events: if has_option(options, FILE_DIRECTORY) {
            far.events
        } else {
            far.events.push(EventView::Created(name))
        },
        ..far
    }
}

proof fn lemma_create_is_taken(
    far: FarEnd,
    request: MessageView,
    name: Seq<char>,
    disposition: u32,
    options: u32,
)
    requires
        far.phase is Serving,
        far.session.valid(),
        far.session.next_handle < u64::MAX,
        !far.session.nothing_to_open(name, disposition, options),
        request.command == wire::CREATE,
        asks_create(request.body, name, disposition, options),
    ensures
        ({
            let after = with_open(far, name, disposition, options);
            let length = content(after.session.files, name).len() as u64;
            let body = create_response_body(file_id(far.session.next_handle), length);
            &&& far.takes(request) == Some(
                Ok::<(FarEnd, MessageView), Fault>(
                    (after, far.session.answer_to(request, wire::STATUS_SUCCESS, body)),
                ),
            )
            &&& after.session.valid()
        }),
        !far.session.handles.dom().contains(file_id(far.session.next_handle)),
        is_small(request.body),
{
    reveal(asks_create);
    reveal(FarEnd::takes);
    law_session_stays_valid(far.session, request);
}

proof fn lemma_is_handed_out(client: ClientView, answer: MessageView, id: Seq<u8>, length: u64)
    requires
        client.next_message_id < u64::MAX,
        answer.message_id == client.next_message_id,
        answer.status == wire::STATUS_SUCCESS,
        hands_out(answer.body, id, length),
    ensures
        client.next().opened(Some(answer)) == Ok::<(Seq<u8>, u64), Fault>((id, length)),
        client.next().handle(Some(answer)) == Ok::<Seq<u8>, Fault>(id),
        is_small(answer.body),
{
    reveal(hands_out);
}

/// A far end hands out a handle for what a client opens or creates.
pub(crate) proof fn lemma_opens(
    far: FarEnd,
    client: ClientView,
    name: Seq<char>,
    disposition: u32,
    options: u32,
) -> (answer: MessageView)
    requires
        far.phase is Serving,
        far.session.valid(),
        far.session.next_handle < u64::MAX,
        !far.session.nothing_to_open(name, disposition, options),
        client.next_message_id < u64::MAX,
        utf16(name).len() <= 0xFFFF,
    ensures
        far.answers(
            client.request(wire::CREATE, create_request_body(name, disposition, options)),
        ) == Some(
            Ok::<(FarEnd, MessageView), Fault>(
                (with_open(far, name, disposition, options), answer),
            ),
        ),
        with_open(far, name, disposition, options).session.valid(),
        client.next().opened(Some(answer)) == Ok::<(Seq<u8>, u64), Fault>(
            (
                file_id(far.session.next_handle),
                content(
                    with_open(far, name, disposition, options).session.files,
                    name,
                ).len() as u64,
            ),
        ),
        client.next().handle(Some(answer)) == Ok::<Seq<u8>, Fault>(
            file_id(far.session.next_handle),
        ),
        !far.session.handles.dom().contains(file_id(far.session.next_handle)),
{
    let body = create_request_body(name, disposition, options);
    let request = client.request(wire::CREATE, body);
    let after = with_open(far, name, disposition, options);
    let id = file_id(far.session.next_handle);
    let length = content(after.session.files, name).len() as u64;
    assert(id.len() == 16);
    lemma_asks_create(name, disposition, options);
    lemma_create_is_taken(far, request, name, disposition, options);
    lemma_hands_out(id, length);
    let reply = create_response_body(id, length);
    let answer = far.session.answer_to(request, wire::STATUS_SUCCESS, reply);
    lemma_is_handed_out(client, answer, id, length);
    lemma_crosses(far, request, after, answer);
    answer
}

/// The far end once `data` is written at `offset` of `id`.
pub open spec fn with_written(far: FarEnd, id: Seq<u8>, offset: u64, data: Seq<u8>) -> FarEnd {
    let session = far.session;
    let open = session.handles[id];
    let bytes = overwritten(content(session.files, open.name), offset as nat, data);
    FarEnd {
        session: SessionView {
            files: session.files.insert(open.name, bytes),
            handles: session.handles.insert(id, OpenView { written: true, ..open }),
            ..session
        },
        events: far.events.push(EventView::Written(open.name, data.len())),
        ..far
    }
}

proof fn lemma_write_is_taken(
    far: FarEnd,
    request: MessageView,
    id: Seq<u8>,
    offset: u64,
    data: Seq<u8>,
)
    requires
        far.phase is Serving,
        far.session.handles.dom().contains(id),
        offset + data.len() <= isize::MAX,
        request.command == wire::WRITE,
        asks_write(request.body, id, offset, data),
    ensures
        far.takes(request) == Some(
            Ok::<(FarEnd, MessageView), Fault>(
                (
                    with_written(far, id, offset, data),
                    far.session.answer_to(
                        request,
                        wire::STATUS_SUCCESS,
                        write_response_body(length32(data.len())),
                    ),
                ),
            ),
        ),
        is_small(request.body),
{
    reveal(asks_write);
    reveal(FarEnd::takes);
}

/// A far end writes a chunk where the client says, and tells it how much it
/// wrote.
pub(crate) proof fn lemma_writes(
    far: FarEnd,
    client: ClientView,
    id: Seq<u8>,
    offset: u64,
    data: Seq<u8>,
) -> (answer: MessageView)
    requires
        far.phase is Serving,
        far.session.handles.dom().contains(id),
        id.len() == 16,
        data.len() <= CHUNK,
        offset + data.len() <= isize::MAX,
        client.next_message_id < u64::MAX,
    ensures
        far.answers(client.request(wire::WRITE, write_request_body(id, offset, data))) == Some(
            Ok::<(FarEnd, MessageView), Fault>((with_written(far, id, offset, data), answer)),
        ),
        client.next().success(Some(answer)) == Ok::<MessageView, Fault>(answer),
        u32_at(answer.body, 4) == data.len(),
{
    let request = client.request(wire::WRITE, write_request_body(id, offset, data));
    let count = length32(data.len());
    lemma_asks_write(id, offset, data);
    lemma_write_is_taken(far, request, id, offset, data);
    law_write_response_reads_back(count);
    let answer = far.session.answer_to(
        request,
        wire::STATUS_SUCCESS,
        write_response_body(count),
    );
    lemma_crosses(far, request, with_written(far, id, offset, data), answer);
    answer
}

/// The far end once `id` is closed.
pub open spec fn with_closed(far: FarEnd, id: Seq<u8>) -> FarEnd {
    let session = SessionView { handles: far.session.handles.remove(id), ..far.session };
    let open = far.session.handles[id];
    if open.delete_on_close {
        FarEnd {
            session: SessionView { files: session.files.remove(open.name), ..session },
            events: far.events.push(EventView::Removed(open.name)),
            ..far
        }
    } else if open.written {
        let arrived = ArrivedView {
            origin_uri: origin_of(session.peer, session.tree, open.name),
            bytes: content(session.files, open.name),
        };
        FarEnd { session, events: far.events.push(EventView::Committed(arrived)), ..far }
    } else {
        FarEnd { session, ..far }
    }
}

proof fn lemma_close_is_taken(far: FarEnd, request: MessageView, id: Seq<u8>)
    requires
        far.phase is Serving,
        far.session.handles.dom().contains(id),
        request.command == wire::CLOSE,
        asks_id(request.body, id),
    ensures
        far.takes(request) == Some(
            Ok::<(FarEnd, MessageView), Fault>(
                (
                    with_closed(far, id),
                    far.session.answer_to(
                        request,
                        wire::STATUS_SUCCESS,
                        close_response_body(),
                    ),
                ),
            ),
        ),
        is_small(request.body),
{
    reveal(asks_id);
    reveal(FarEnd::takes);
}

/// A far end closes what the client closes.
pub(crate) proof fn lemma_closes(far: FarEnd, client: ClientView, id: Seq<u8>) -> (answer:
    MessageView)
    requires
        far.phase is Serving,
        far.session.handles.dom().contains(id),
        id.len() == 16,
        client.next_message_id < u64::MAX,
    ensures
        far.answers(client.request(wire::CLOSE, close_request_body(id))) == Some(
            Ok::<(FarEnd, MessageView), Fault>((with_closed(far, id), answer)),
        ),
        client.next().success(Some(answer)) == Ok::<MessageView, Fault>(answer),
{
    let request = client.request(wire::CLOSE, close_request_body(id));
    lemma_asks_close(id);
    lemma_close_is_taken(far, request, id);
    assert(close_response_body().len() == 60);
    let answer = far.session.answer_to(request, wire::STATUS_SUCCESS, close_response_body());
    lemma_crosses(far, request, with_closed(far, id), answer);
    answer
}

/// The answer of a far end to a listing.
spec fn listing_answer(session: SessionView, request: MessageView) -> MessageView {
    if session.files == Map::<Seq<char>, Seq<u8>>::empty() {
        session.answer_to(request, wire::STATUS_NO_MORE_FILES, Seq::empty())
    } else {
        session.answer_to(
            request,
            wire::STATUS_SUCCESS,
            directory::response_body(listing(session.files)),
        )
    }
}

proof fn lemma_listing_is_taken(far: FarEnd, request: MessageView, root: Seq<u8>)
    requires
        far.phase is Serving,
        request.command == wire::QUERY_DIRECTORY,
        asks_id(request.body, root),
    ensures
        far.takes(request) == Some(
            Ok::<(FarEnd, MessageView), Fault>(
                (
                    FarEnd { events: far.events.push(EventView::Listed), ..far },
                    listing_answer(far.session, request),
                ),
            ),
        ),
        is_small(request.body),
{
    reveal(asks_id);
    reveal(FarEnd::takes);
}

proof fn lemma_is_listed(answer: MessageView, names: Seq<Seq<char>>)
    requires
        answer.status == wire::STATUS_SUCCESS,
        lists_names(answer.body, names),
    ensures
        listed_in(answer) == Ok::<Seq<Seq<char>>, Fault>(visible(names)),
        is_small(answer.body),
{
    reveal(lists_names);
}

/// A far end lists its files for a client.
pub(crate) proof fn lemma_lists(
    far: FarEnd,
    client: ClientView,
    root: Seq<u8>,
    pattern: Seq<char>,
) -> (answer: MessageView)
    requires
        far.phase is Serving,
        entries(listing(far.session.files)).len() + HEADER + 8 <= MAX_MESSAGE,
        root.len() == 16,
        utf16(pattern).len() <= 0xFFFF,
        client.next_message_id < u64::MAX,
    ensures
        far.answers(
            client.request(wire::QUERY_DIRECTORY, directory::request_body(root, pattern)),
        ) == Some(
            Ok::<(FarEnd, MessageView), Fault>(
                (FarEnd { events: far.events.push(EventView::Listed), ..far }, answer),
            ),
        ),
        accepted(Some(answer), client.next().asked(), wire::STATUS_NO_MORE_FILES) == Ok::<
            MessageView,
            Fault,
        >(answer),
        listed_in(answer) == Ok::<Seq<Seq<char>>, Fault>(visible(listing(far.session.files))),
{
    let files = far.session.files;
    let request = client.request(
        wire::QUERY_DIRECTORY,
        directory::request_body(root, pattern),
    );
    lemma_asks_listing(root, pattern);
    lemma_listing_is_taken(far, request, root);
    let answer = listing_answer(far.session, request);
    if files == Map::<Seq<char>, Seq<u8>>::empty() {
        let none = Seq::<Seq<char>>::empty();
        assert(lists(none, files));
        law_listing_is_unique(none, none, files);
    } else {
        lemma_lists_names(listing(files));
        lemma_is_listed(answer, listing(files));
    }
    lemma_crosses(
        far,
        request,
        FarEnd { events: far.events.push(EventView::Listed), ..far },
        answer,
    );
    answer
}

proof fn lemma_read_is_taken(
    far: FarEnd,
    request: MessageView,
    id: Seq<u8>,
    offset: u64,
    length: u32,
)
    requires
        far.phase is Serving,
        far.session.handles.dom().contains(id),
        0 < length,
        offset + length <= content(far.session.files, far.session.handles[id].name).len(),
        request.command == wire::READ,
        asks_read(request.body, id, offset, length),
    ensures
        ({
            let name = far.session.handles[id].name;
            let data = content(far.session.files, name).subrange(
                offset as int,
                offset + length,
            );
            far.takes(request) == Some(
                Ok::<(FarEnd, MessageView), Fault>(
                    (
                        FarEnd { events: far.events.push(EventView::Read(name)), ..far },
                        far.session.answer_to(
                            request,
                            wire::STATUS_SUCCESS,
                            read_response_body(data),
                        ),
                    ),
                ),
            )
        }),
        is_small(request.body),
{
    reveal(asks_read);
    reveal(FarEnd::takes);
}

proof fn lemma_is_held(answer: MessageView, data: Seq<u8>)
    requires
        holds(answer.body, data),
    ensures
        data_in(answer.body) == Ok::<Seq<u8>, Fault>(data),
        is_small(answer.body),
{
    reveal(holds);
}

/// A far end answers a read within a file with the bytes that stand there.
pub(crate) proof fn lemma_reads(
    far: FarEnd,
    client: ClientView,
    id: Seq<u8>,
    offset: u64,
    length: u32,
) -> (answer: MessageView)
    requires
        far.phase is Serving,
        far.session.handles.dom().contains(id),
        id.len() == 16,
        client.next_message_id < u64::MAX,
        0 < length <= CHUNK,
        offset + length <= content(far.session.files, far.session.handles[id].name).len(),
    ensures
        ({
            let name = far.session.handles[id].name;
            let data = content(far.session.files, name).subrange(
                offset as int,
                offset + length,
            );
            &&& far.answers(client.request(wire::READ, read_request_body(id, offset, length)))
                == Some(
                Ok::<(FarEnd, MessageView), Fault>(
                    (FarEnd { events: far.events.push(EventView::Read(name)), ..far }, answer),
                ),
            )
            &&& client.next().success(Some(answer)) == Ok::<MessageView, Fault>(answer)
            &&& data_in(answer.body) == Ok::<Seq<u8>, Fault>(data)
        }),
{
    let name = far.session.handles[id].name;
    let data = content(far.session.files, name).subrange(offset as int, offset + length);
    let request = client.request(wire::READ, read_request_body(id, offset, length));
    lemma_asks_read(id, offset, length);
    lemma_read_is_taken(far, request, id, offset, length);
    lemma_holds(data);
    let answer = far.session.answer_to(
        request,
        wire::STATUS_SUCCESS,
        read_response_body(data),
    );
    lemma_is_held(answer, data);
    lemma_crosses(
        far,
        request,
        FarEnd { events: far.events.push(EventView::Read(name)), ..far },
        answer,
    );
    answer
}

pub(crate) proof fn lemma_no_options()
    ensures
        !has_option(0, FILE_DIRECTORY),
        !has_option(0, FILE_DELETE_ON_CLOSE),
        has_option(FILE_DIRECTORY, FILE_DIRECTORY),
        !has_option(FILE_DIRECTORY, FILE_DELETE_ON_CLOSE),
        !has_option(FILE_DELETE_ON_CLOSE, FILE_DIRECTORY),
        has_option(FILE_DELETE_ON_CLOSE, FILE_DELETE_ON_CLOSE),
{
    assert(0u32 & 0x0000_0001u32 == 0) by (bit_vector);
    assert(0u32 & 0x0000_1000u32 == 0) by (bit_vector);
    assert(0x0000_0001u32 & 0x0000_0001u32 != 0) by (bit_vector);
    assert(0x0000_0001u32 & 0x0000_1000u32 == 0) by (bit_vector);
    assert(0x0000_1000u32 & 0x0000_0001u32 == 0) by (bit_vector);
    assert(0x0000_1000u32 & 0x0000_1000u32 != 0) by (bit_vector);
}

pub(crate) proof fn lemma_handed_out_later(before: SessionView, after: SessionView)
    requires
        before.valid(),
        after.files.dom().finite(),
        after.handles == before.handles,
        before.next_handle <= after.next_handle,
    ensures
        after.valid(),
{
    assert forall|id: Seq<u8>| #[trigger] after.handles.dom().contains(id) implies handed_out(
        id,
        after.next_handle,
    ) by {
        assert(before.handles.dom().contains(id));
        let seed = choose|seed: u64| seed < before.next_handle && id == #[trigger] file_id(seed);
        assert(seed < after.next_handle && id == file_id(seed));
    }
}

/// Every request that is served is answered as itself: the answer carries its
/// command and its ids, the session's id, and the response flag.
pub proof fn law_an_answer_is_to_its_request(session: SessionView, request: MessageView)
    ensures
        session.serve(request) matches Ok((_, reply)) ==> {
            let answer = reply.answer;
            &&& answer.command == request.command
            &&& answer.message_id == request.message_id
            &&& answer.tree_id == request.tree_id
            &&& answer.session_id == session.id
            &&& answer.flags == wire::FLAGS_RESPONSE
        },
{
}

/// Where there is nothing under the name or the id that a request asks for, it
/// is refused as no such file, nothing is changed and nothing is reported.
pub proof fn law_what_is_not_there_is_refused(session: SessionView, request: MessageView)
    requires
        match request.command {
            wire::CREATE => create_fields_in(request.body) matches Ok((name, disposition, options))
                && disposition == FILE_OPEN && !has_option(options, FILE_DIRECTORY)
                && !session.files.dom().contains(name),
            wire::WRITE => write_fields_in(request.body) matches Ok((id, _, _))
                && !session.handles.dom().contains(id),
            wire::READ => read_fields_in(request.body) matches Ok((id, _, _))
                && !session.handles.dom().contains(id),
            _ => false,
        },
    ensures
        session.serve(request) == Ok::<(SessionView, ReplyView), Fault>(
            (
                session,
                ReplyView {
                    answer: MessageView {
                        session_id: session.id,
                        ..request.answer(wire::STATUS_OBJECT_NAME_NOT_FOUND, Seq::empty())
                    },
                    after: AfterView::Nothing,
                },
            ),
        ),
        session.settle(AfterView::Nothing) == (session, None::<EventView>),
{
}

/// A file that was written is handed up as it stands when it is closed, and a
/// file opened to delete is removed then; either way its id is not open any
/// more, and no other file is touched.
pub proof fn law_a_close_hands_up_or_removes(
    session: SessionView,
    request: MessageView,
    id: Seq<u8>,
)
    requires
        request.command == wire::CLOSE,
        id_at(request.body, 8) == Ok::<Seq<u8>, Fault>(id),
        session.handles.dom().contains(id),
    ensures
        session.serve(request) matches Ok((served, reply)) && {
            let open = session.handles[id];
            let (after, event) = served.settle(reply.after);
            let arrived = ArrivedView {
                origin_uri: origin_of(session.peer, session.tree, open.name),
                bytes: content(session.files, open.name),
            };
            &&& reply.answer.status == wire::STATUS_SUCCESS
            &&& after.handles == session.handles.remove(id)
            &&& open.delete_on_close ==> event == Some(EventView::Removed(open.name))
                && after.files == session.files.remove(open.name)
            &&& !open.delete_on_close && open.written ==> event == Some(
                EventView::Committed(arrived),
            ) && after.files == session.files
            &&& !open.delete_on_close && !open.written ==> event is None && after.files
                == session.files
        },
{
}

/// A write touches nothing but the file it names: every other file stays as it
/// was, and so does every byte of the file outside what was written.
pub proof fn law_a_write_touches_nothing_else(
    session: SessionView,
    request: MessageView,
    id: Seq<u8>,
    offset: u64,
    data: Seq<u8>,
)
    requires
        request.command == wire::WRITE,
        write_fields_in(request.body) == Ok::<(Seq<u8>, u64, Seq<u8>), Fault>((id, offset, data)),
        session.handles.dom().contains(id),
    ensures
        session.serve(request) matches Ok((after, _)) && {
            let name = session.handles[id].name;
            let before = content(session.files, name);
            let bytes = content(after.files, name);
            &&& after.files.remove(name) == session.files.remove(name)
            &&& bytes.subrange(offset as int, offset + data.len()) == data
            &&& forall|i: int|
                0 <= i < before.len() && !(offset <= i < offset + data.len()) ==> bytes[i]
                    == before[i]
        },
{
    let name = session.handles[id].name;
    let before = content(session.files, name);
    let bytes = overwritten(before, offset as nat, data);
    let after = session.files.insert(name, bytes);
    assert(after.remove(name) =~= session.files.remove(name));
    assert(bytes.subrange(offset as int, offset + data.len()) =~= data);
}

/// What is answered to a read of at most a chunk fits in a message.
pub proof fn law_a_chunk_read_fits(
    session: SessionView,
    request: MessageView,
    id: Seq<u8>,
    offset: u64,
    length: u32,
)
    requires
        length <= CHUNK,
    ensures
        session.read(request, id, offset, length).answer.fits(),
{
}

} // verus!
