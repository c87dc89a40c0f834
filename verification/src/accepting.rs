//! A client being accepted: negotiate, session setup, logon, tree connect, in
//! that order, until there is a session to serve or the client is refused.
//!
//! The tokens a session setup carries are read and made by whoever holds the
//! connection: each is handed out as bytes, and what came of it handed back.

use vstd::prelude::*;

use crate::error::{permanent_fault, Fault, TransportError};
use crate::message::session_setup_body;
use crate::session::{negotiated, setup_in, Session, SessionView};
use crate::wire;
use crate::wire::{read_view, Message, MessageView};

verus! {

/// What is due of a client that is being accepted, or of whoever reads its
/// tokens, with the request that is to be answered then.
enum Due {
    Negotiate,
    Setup,
    Offer(Message),
    Logon,
    Confirm(Message),
    Tree,
}

/// What is due while a client is being accepted, as a mathematical value.
#[verifier::ext_equal]
pub enum DueView {
    /// The client's negotiate.
    Negotiate,
    /// The client's first session setup.
    Setup,
    /// A challenge to answer this session setup with.
    Offer(MessageView),
    /// The client's second session setup.
    Logon,
    /// What came of reading the identity that this session setup carries.
    Confirm(MessageView),
    /// The client's tree connect.
    Tree,
}

impl DueView {
    /// A message of the client is due.
    pub open spec fn is_message(self) -> bool {
        !(self is Offer) && !(self is Confirm)
    }
}

/// A client being accepted.
pub struct Accepting {
    session: Session,
    due: Due,
}

/// What an [`Accepting`] says, as a mathematical value.
#[verifier::ext_equal]
pub struct AcceptingView {
    pub session: SessionView,
    pub due: DueView,
}

impl View for Accepting {
    type V = AcceptingView;

    closed spec fn view(&self) -> AcceptingView {
        AcceptingView {
            session: self.session@,
            due: match self.due {
                Due::Negotiate => DueView::Negotiate,
                Due::Setup => DueView::Setup,
                Due::Offer(request) => DueView::Offer(request@),
                Due::Logon => DueView::Logon,
                Due::Confirm(request) => DueView::Confirm(request@),
                Due::Tree => DueView::Tree,
            },
        }
    }
}

/// What comes of a message of a client that is being accepted.
pub enum Accept {
    /// Send this, and hand over what is read next.
    Answer(Accepting, Message),
    /// The client's first token: read the flags it asks for, and hand a
    /// challenge to [`Accepting::offer`].
    Negotiate(Accepting, Vec<u8>),
    /// The client's second token: read the identity it carries, and hand what
    /// came of it to [`Accepting::confirm`].
    Authenticate(Accepting, Vec<u8>),
    /// Send this: the tree is connected, and the session serves.
    Connected(Session, Message),
    /// Send this: the client asked for another share, and the session ends in
    /// this failure.
    Refused(Message, TransportError),
}

/// What an [`Accept`] says, as a mathematical value.
pub enum AcceptView {
    Answer(AcceptingView, MessageView),
    Negotiate(AcceptingView, Seq<u8>),
    Authenticate(AcceptingView, Seq<u8>),
    Connected(SessionView, MessageView),
    Refused(MessageView, Fault),
}

impl View for Accept {
    type V = AcceptView;

    open spec fn view(&self) -> AcceptView {
        match self {
            Accept::Answer(next, answer) => AcceptView::Answer(next@, answer@),
            Accept::Negotiate(next, token) => AcceptView::Negotiate(next@, token@),
            Accept::Authenticate(next, token) => AcceptView::Authenticate(next@, token@),
            Accept::Connected(session, answer) => AcceptView::Connected(session@, answer@),
            Accept::Refused(answer, error) => AcceptView::Refused(answer@, error@),
        }
    }
}

impl AcceptingView {
    /// What the message that was read comes to, where one is due.
    pub open spec fn take(self, read: Option<MessageView>) -> Result<AcceptView, Fault> {
        match self.due {
            DueView::Negotiate => match negotiated(read) {
                Err(fault) => Err(fault),
                Ok(answer) => Ok(
                    AcceptView::Answer(AcceptingView { due: DueView::Setup, ..self }, answer),
                ),
            },
            DueView::Setup => match setup_in(read) {
                Err(fault) => Err(fault),
                Ok((request, token)) => Ok(
                    AcceptView::Negotiate(
                        AcceptingView { due: DueView::Offer(request), ..self },
                        token,
                    ),
                ),
            },
            DueView::Logon => match setup_in(read) {
                Err(fault) => Err(fault),
                Ok((request, token)) => Ok(
                    AcceptView::Authenticate(
                        AcceptingView { due: DueView::Confirm(request), ..self },
                        token,
                    ),
                ),
            },
            _ => match self.session.tree_connect(read) {
                Err(fault) => Err(fault),
                Ok((session, answer, None)) => Ok(AcceptView::Connected(session, answer)),
                Ok((_, answer, Some(fault))) => Ok(AcceptView::Refused(answer, fault)),
            },
        }
    }

    /// The client answered with `challenge`, its logon due.
    pub open spec fn offer(self, challenge: Seq<u8>) -> (AcceptingView, MessageView) {
        (
            AcceptingView { due: DueView::Logon, ..self },
            self.session.challenge(self.due->Offer_0, challenge),
        )
    }

    /// The client logged on where its identity could be read, its tree connect
    /// due.
    pub open spec fn confirm(self, identified: Result<(), Seq<char>>) -> Result<
        (AcceptingView, MessageView),
        Fault,
    > {
        match identified {
            Err(message) => Err(permanent_fault(message)),
            Ok(_) => Ok(
                (
                    AcceptingView { due: DueView::Tree, ..self },
                    self.due->Confirm_0.answer(
                        wire::STATUS_SUCCESS,
                        session_setup_body(true, Seq::empty()),
                    ),
                ),
            ),
        }
    }
}

impl Session {
    /// Accept the client at `peer` as the session `id`: its negotiate is due.
    pub fn accept(peer: String, id: u64) -> (accepting: Accepting)
        ensures
            accepting.wf(),
            accepting@ == (AcceptingView {
                session: SessionView {
                    peer: peer@,
                    id,
                    tree: Seq::empty(),
                    files: Map::empty(),
                    handles: Map::empty(),
                    next_handle: 1,
                },
                due: DueView::Negotiate,
            }),
    {
        Accepting { session: Session::new(peer, id), due: Due::Negotiate }
    }
}

impl Accepting {
    /// The session is well-formed.
    pub closed spec fn wf(&self) -> bool {
        self.session.wf()
    }

    /// Take the message that was read, where one is due.
    pub fn take(self, read: Option<Message>) -> (accept: Result<Accept, TransportError>)
        requires
            self.wf(),
            self@.due.is_message(),
        ensures
            match (accept, self@.take(read_view(read))) {
                (Ok(accept), Ok(model)) => accept@ == model && match accept {
                    Accept::Answer(next, _) => next.wf(),
                    Accept::Negotiate(next, _) => next.wf(),
                    Accept::Authenticate(next, _) => next.wf(),
                    Accept::Connected(session, _) => session.wf(),
                    Accept::Refused(_, _) => true,
                },
                (Err(error), Err(fault)) => error@ == fault,
                _ => false,
            },
    {
        let mut session = self.session;
        match self.due {
            Due::Negotiate => match Session::negotiate(read) {
                Err(error) => Err(error),
                Ok(answer) => Ok(Accept::Answer(Accepting { session, due: Due::Setup }, answer)),
            },
            Due::Setup => match Session::session_setup(read) {
                Err(error) => Err(error),
                Ok((request, token)) => {
                    let due = Due::Offer(request);
                    Ok(Accept::Negotiate(Accepting { session, due }, token))
                },
            },
            Due::Logon => match Session::session_setup(read) {
                Err(error) => Err(error),
                Ok((request, token)) => {
                    let due = Due::Confirm(request);
                    Ok(Accept::Authenticate(Accepting { session, due }, token))
                },
            },
            _ => match session.tree_connect(read) {
                Err(error) => Err(error),
                Ok((answer, None)) => Ok(Accept::Connected(session, answer)),
                Ok((answer, Some(refusal))) => Ok(Accept::Refused(answer, refusal)),
            },
        }
    }

    /// Answer the client's first token with `challenge`, a token too.
    pub fn offer(self, challenge: &[u8]) -> (offered: (Accepting, Message))
        requires
            self.wf(),
            self@.due is Offer,
        ensures
            offered@ == self@.offer(challenge@),
            offered.0.wf(),
    {
        let session = self.session;
        match self.due {
            Due::Offer(request) => {
                let answer = session.challenge(&request, challenge);
                (Accepting { session, due: Due::Logon }, answer)
            },
            _ => vstd::pervasive::unreached(),
        }
    }

    /// Log the client on, `identified` being what came of reading its second
    /// token.
    pub fn confirm(self, identified: Result<(), String>) -> (confirmed: Result<
        (Accepting, Message),
        TransportError,
    >)
        requires
            self.wf(),
            self@.due is Confirm,
        ensures
            match (
                confirmed,
                self@.confirm(
                    match identified {
                        Ok(_) => Ok(()),
                        Err(message) => Err(message@),
                    },
                ),
            ) {
                (Ok(confirmed), Ok(model)) => confirmed@ == model && confirmed.0.wf(),
                (Err(error), Err(fault)) => error@ == fault,
                _ => false,
            },
    {
        let session = self.session;
        match self.due {
            Due::Confirm(request) => match Session::logon(&request, identified) {
                Ok(answer) => Ok((Accepting { session, due: Due::Tree }, answer)),
                Err(error) => Err(error),
            },
            _ => vstd::pervasive::unreached(),
        }
    }
}

} // verus!
