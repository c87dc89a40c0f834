//! What a session does with each request of its client, as the client sees it:
//! what is answered, what is on the share then, what is open, and what is
//! reported.

use vstd::prelude::*;

use crate::accepting::{AcceptView, AcceptingView, DueView};
use crate::arrived::law_an_origin_names_its_file;
use crate::directory::{entries, law_listing_reads_back, names_in};
use crate::error::Fault;
use crate::far_end::lemma_next_id_is_free;
use crate::handles::OpenView;
use crate::message::{
    create_fields_in, created_in, file_id, id_at, law_create_response_reads_back,
    law_session_token_reads_back, law_write_response_reads_back, length32,
    negotiate_response_body, path_in, read_fields_in, read_response_body, token_in,
    write_fields_in, write_response_body,
};
use crate::session::{content, overwritten, EventView, SessionView, SHARE};
use crate::share::{law_files_are_listed, law_names_are_ordered, listing, precedes};
use crate::text::{
    hex, law_a_hexadecimal_reads_back, law_what_is_past_the_last_is_the_end, past_last,
};
use crate::wire::{
    law_u16_reads_back, law_u32_reads_back, le16, le32, u16_at, u32_at, MessageView, HEADER,
    MAX_MESSAGE,
};

verus! {

proof fn lemma_read_response(data: Seq<u8>)
    requires
        data.len() <= u32::MAX,
    ensures
        read_response_body(data).len() == 16 + data.len(),
        read_response_body(data)[2] == 80,
        u32_at(read_response_body(data), 4) == data.len(),
        read_response_body(data).skip(16) == data,
{
    let body = read_response_body(data);
    assert(body.subrange(4, 8) =~= le32(length32(data.len())));
    law_u32_reads_back(body, 4, length32(data.len()));
    assert(body.skip(16) =~= data);
}

/// A read hands out what the file holds: the bytes from the offset on, as many as
/// were asked for or as there are, and a success, wherever the offset is within
/// the file. Only past its end is the answer that the file ends. Nothing is
/// changed, and the read is reported.
pub proof fn law_a_read_hands_out_what_the_file_holds(
    session: SessionView,
    request: MessageView,
    id: Seq<u8>,
    offset: u64,
    length: u32,
)
    requires
        request.command == 8,
        read_fields_in(request.body) == Ok::<(Seq<u8>, u64, u32), Fault>((id, offset, length)),
        session.handles.dom().contains(id),
    ensures
        session.serve(request) matches Ok((after, reply)) && {
            let name = session.handles[id].name;
            let bytes = if session.files.dom().contains(name) {
                session.files[name]
            } else {
                Seq::empty()
            };
            let body = reply.answer.body;
            &&& after == session
            &&& after.settle(reply.after) == (session, Some(EventView::Read(name)))
            &&& if offset < bytes.len() {
                let end = if offset + length < bytes.len() {
                    offset + length
                } else {
                    bytes.len() as int
                };
                &&& reply.answer.status == 0
                &&& u32_at(body, 4) == end - offset
                &&& body[2] == 80
                &&& body.skip(16) == bytes.subrange(offset as int, end)
            } else {
                &&& reply.answer.status == 0xC000_0011
                &&& u32_at(body, 4) == 0
                &&& body.len() == 16
            }
        },
{
    let name = session.handles[id].name;
    let bytes = content(session.files, name);
    lemma_read_response(Seq::empty());
    if offset < bytes.len() {
        let end = if offset + length < bytes.len() {
            offset + length
        } else {
            bytes.len() as int
        };
        lemma_read_response(bytes.subrange(offset as int, end));
    }
}

proof fn lemma_options(options: u32)
    ensures
        options & 1 != 0 <==> options % 2 == 1,
        options & 0x1000 != 0 <==> (options / 0x1000) % 2 == 1,
{
    assert(options & 1 != 0 <==> options % 2 == 1) by (bit_vector);
    assert(options & 0x1000 != 0 <==> (options / 0x1000) % 2 == 1) by (bit_vector);
}

/// A create opens what it names: the answer hands out an id that was not open,
/// which is open then for that name, unwritten, and to be removed with its close
/// exactly where the option for that is set. A create that replaces leaves the
/// file empty, any other leaves every file as it was and tells how long it is.
/// It is refused only where a file that must be there is not; nothing is changed
/// then. A file that was opened is reported, a directory is not.
pub proof fn law_a_create_opens_what_it_names(
    session: SessionView,
    request: MessageView,
    name: Seq<char>,
    disposition: u32,
    options: u32,
)
    requires
        request.command == 5,
        create_fields_in(request.body) == Ok::<(Seq<char>, u32, u32), Fault>(
            (name, disposition, options),
        ),
        session.valid(),
        session.next_handle < u64::MAX,
        session.files.dom().contains(name) ==> session.files[name].len() <= u64::MAX,
    ensures
        session.serve(request) matches Ok((after, reply)) && {
            let directory = options % 2 == 1;
            let (settled, event) = after.settle(reply.after);
            &&& settled == after
            &&& if !directory && disposition == 1 && !session.files.dom().contains(name) {
                &&& reply.answer.status == 0xC000_0034
                &&& reply.answer.body.len() == 0
                &&& after == session
                &&& event is None
            } else {
                &&& reply.answer.status == 0
                &&& created_in(reply.answer.body) matches Ok((id, length))
                &&& id.len() == 16
                &&& !session.handles.dom().contains(id)
                &&& after.handles == session.handles.insert(
                    id,
                    OpenView {
                        name,
                        written: false,
                        delete_on_close: (options / 0x1000) % 2 == 1,
                    },
                )
                &&& after.files == if disposition == 5 {
                    session.files.insert(name, Seq::empty())
                } else {
                    session.files
                }
                &&& length == if disposition != 5 && session.files.dom().contains(name) {
                    session.files[name].len()
                } else {
                    0
                }
                &&& after.next_handle == session.next_handle + 1
                &&& after.peer == session.peer && after.id == session.id && after.tree
                    == session.tree
                &&& event == if directory {
                    None
                } else {
                    Some(EventView::Created(name))
                }
            }
        },
{
    lemma_options(options);
    lemma_next_id_is_free(session);
    let id = file_id(session.next_handle);
    assert(id.len() == 16);
    let files = if disposition == 5 {
        session.files.insert(name, Seq::empty())
    } else {
        session.files
    };
    law_create_response_reads_back(id, content(files, name).len() as u64);
}

/// A write puts its data where it says: the file holds the data from the offset
/// on, what it held elsewhere, zeros in a gap before the data, and nothing else;
/// every other file stays. The answer counts the data, the file is written then,
/// and the write is reported.
pub proof fn law_a_write_puts_its_data_where_it_says(
    session: SessionView,
    request: MessageView,
    id: Seq<u8>,
    offset: u64,
    data: Seq<u8>,
)
    requires
        request.command == 9,
        write_fields_in(request.body) == Ok::<(Seq<u8>, u64, Seq<u8>), Fault>((id, offset, data)),
        session.handles.dom().contains(id),
        data.len() <= u32::MAX,
    ensures
        session.serve(request) matches Ok((after, reply)) && {
            let open = session.handles[id];
            let before = if session.files.dom().contains(open.name) {
                session.files[open.name]
            } else {
                Seq::empty()
            };
            let bytes = after.files[open.name];
            let end = offset + data.len();
            &&& reply.answer.status == 0
            &&& u32_at(reply.answer.body, 4) == data.len()
            &&& after.files == session.files.insert(open.name, bytes)
            &&& bytes.len() == if end < before.len() {
                before.len() as int
            } else {
                end
            }
            &&& forall|i: int|
                0 <= i < bytes.len() ==> #[trigger] bytes[i] == if offset <= i < end {
                    data[i - offset]
                } else if i < before.len() {
                    before[i]
                } else {
                    0u8
                }
            &&& after.handles == session.handles.insert(
                id,
                OpenView {
                    name: open.name,
                    written: true,
                    delete_on_close: open.delete_on_close,
                },
            )
            &&& after.next_handle == session.next_handle
            &&& after.peer == session.peer && after.id == session.id && after.tree == session.tree
            &&& after.settle(reply.after) == (
                after,
                Some(EventView::Written(open.name, data.len())),
            )
        },
{
    let open = session.handles[id];
    let bytes = overwritten(content(session.files, open.name), offset as nat, data);
    law_write_response_reads_back(length32(data.len()));
    let body = write_response_body(length32(data.len()));
    assert(body.subrange(4, 8) =~= le32(length32(data.len())));
    law_u32_reads_back(body, 4, length32(data.len()));
    assert(session.files.insert(open.name, bytes)[open.name] == bytes);
}

/// A close ends what it names: its id is not open then, every other is. A file
/// that was opened to delete is gone, whether or not it was written; another that
/// was written is handed up whole, as it stands, with where it came from. Nothing
/// else is changed or reported, and a close is a success even where nothing was
/// open.
pub proof fn law_a_close_ends_what_it_names(
    session: SessionView,
    request: MessageView,
    id: Seq<u8>,
    other: Seq<char>,
)
    requires
        request.command == 6,
        id_at(request.body, 8) == Ok::<Seq<u8>, Fault>(id),
    ensures
        session.serve(request) matches Ok((served, reply)) && {
            let (after, event) = served.settle(reply.after);
            let open = session.handles[id];
            &&& reply.answer.status == 0
            &&& reply.answer.body.len() == 60
            &&& after.handles == session.handles.remove(id)
            &&& after.next_handle == session.next_handle
            &&& after.peer == session.peer && after.id == session.id && after.tree == session.tree
            &&& if !session.handles.dom().contains(id) {
                after.files == session.files && event is None
            } else if open.delete_on_close {
                &&& !after.files.dom().contains(open.name)
                &&& other != open.name ==> after.files.dom().contains(other)
                    == session.files.dom().contains(other) && after.files[other]
                    == session.files[other]
                &&& event == Some(EventView::Removed(open.name))
            } else if open.written {
                &&& after.files == session.files
                &&& event matches Some(EventView::Committed(arrived))
                &&& session.files.dom().contains(open.name) ==> arrived.bytes
                    == session.files[open.name]
                &&& arrived.origin_uri.len() == 8 + session.peer.len() + session.tree.len()
                    + open.name.len()
                &&& arrived.origin_uri.skip(8 + session.peer.len() + session.tree.len() as int)
                    == open.name
                &&& arrived.origin_uri.subrange(6, 6 + session.peer.len() as int) == session.peer
            } else {
                after.files == session.files && event is None
            }
        },
{
    if session.handles.dom().contains(id) {
        let open = session.handles[id];
        law_an_origin_names_its_file(session.peer, session.tree, open.name, other);
    }
}

/// A listing names every file on the share, each once, in the order of the
/// names, and nothing else; where there is none, it says that there are no more.
/// Nothing is changed, and the listing is reported.
pub proof fn law_a_listing_names_every_file(
    session: SessionView,
    request: MessageView,
    name: Seq<char>,
)
    requires
        request.command == 14,
        id_at(request.body, 8) is Ok,
        session.valid(),
        entries(listing(session.files)).len() + HEADER + 8 <= MAX_MESSAGE,
    ensures
        session.serve(request) matches Ok((after, reply)) && {
            &&& after == session
            &&& after.settle(reply.after) == (session, Some(EventView::Listed))
            &&& if session.files.dom().len() == 0 {
                &&& reply.answer.status == 0x8000_0006
                &&& reply.answer.body.len() == 0
            } else {
                &&& reply.answer.status == 0
                &&& names_in(reply.answer.body) matches Ok(names)
                &&& names.contains(name) <==> session.files.dom().contains(name)
                &&& forall|i: int, j: int|
                    0 <= i < j < names.len() ==> precedes(
                        #[trigger] names[i],
                        #[trigger] names[j],
                    ) && names[i] != names[j]
            }
        },
{
    let names = listing(session.files);
    law_files_are_listed(session.files);
    law_listing_reads_back(names);
    if session.files.dom().len() == 0 {
        assert(session.files.dom() =~= Set::empty());
        assert(session.files =~= Map::empty());
    }
    assert forall|i: int, j: int| 0 <= i < j < names.len() implies precedes(
        #[trigger] names[i],
        #[trigger] names[j],
    ) && names[i] != names[j] by {
        law_names_are_ordered(names[i], names[j], names[i]);
    }
}

/// Any other command ends the session in a failure that names it, but for a tree
/// disconnect, which is answered and changes nothing.
pub proof fn law_other_commands_are_not_served(session: SessionView, request: MessageView)
    requires
        request.command != 5,
        request.command != 6,
        request.command != 8,
        request.command != 9,
        request.command != 14,
    ensures
        match session.serve(request) {
            Ok((after, reply)) => {
                &&& request.command == 4
                &&& after == session
                &&& reply.answer.status == 0
                &&& after.settle(reply.after) == (session, None::<EventView>)
            },
            Err(fault) => {
                &&& request.command != 4
                &&& !fault.retryable
                &&& fault.message.subrange(10, 14) == hex(request.command as nat, 4)
            },
        },
{
    reveal_strlit("command 0x");
    reveal_strlit(" after the tree connect");
    law_a_hexadecimal_reads_back(request.command as nat, 4);
    let message = "command 0x"@ + hex(request.command as nat, 4) + " after the tree connect"@;
    assert(message.subrange(10, 14) =~= hex(request.command as nat, 4));
}

/// The share is connected exactly where the path ends in its name, right behind a
/// backslash or as the whole path; the answer is then a success. Any other path
/// is answered that there is no such share, and the session ends. Either answer
/// is to the request, and carries the tree's id.
pub proof fn law_only_the_served_share_is_connected(
    session: SessionView,
    request: MessageView,
    path: Seq<char>,
)
    requires
        request.command == 3,
        path_in(request.body) == Ok::<Seq<char>, Fault>(path),
    ensures
        session.tree_connect(Some(request)) matches Ok((after, answer, refusal)) && {
            let share = seq!['x', 'm', 'i', 'p'];
            let served = path == share || path.len() > 4 && path.skip(path.len() - 5)
                == seq!['\\'] + share;
            &&& answer.command == 3
            &&& answer.message_id == request.message_id
            &&& answer.session_id == request.session_id
            &&& answer.tree_id == 1
            &&& answer.flags == 1
            &&& if served {
                &&& answer.status == 0
                &&& refusal is None
                &&& after == (SessionView { tree: share, ..session })
            } else {
                &&& answer.status == 0xC000_00CC
                &&& answer.body.len() == 0
                &&& refusal matches Some(fault) && !fault.retryable
                &&& after == session
            }
        },
{
    reveal_strlit("xmip");
    let share = seq!['x', 'm', 'i', 'p'];
    assert(SHARE@ =~= share);
    law_what_is_past_the_last_is_the_end(path, '\\');
    let rest = past_last(path, '\\');
    let begin = path.len() - rest.len();
    if rest == share {
        if begin > 0 {
            assert(path.skip(path.len() - 5) =~= seq!['\\'] + share);
        } else {
            assert(path.skip(0) =~= path);
        }
    }
    if path == share {
        assert(begin == 0) by {
            if begin > 0 {
                assert(share[begin - 1] == '\\');
            }
        }
        assert(path.skip(0) =~= path);
    }
    if path.len() > 4 && path.skip(path.len() - 5) == seq!['\\'] + share {
        let tail = path.skip(path.len() - 5);
        assert(tail[0] == path[path.len() - 5]);
        assert(tail[1] == path[path.len() - 4] && tail[2] == path[path.len() - 3] && tail[3]
            == path[path.len() - 2] && tail[4] == path[path.len() - 1]);
        if rest.len() > 4 {
            assert(rest[rest.len() - 5] == path[path.len() - 5]);
        }
        if rest.len() < 4 {
            assert(path[begin - 1] == '\\');
        }
        assert(rest =~= share);
    }
}

/// A client is accepted step by step: its negotiate, two session setups and a
/// tree connect are due in this order, and each is taken only where it comes when
/// it is due. A negotiate is answered with the dialect; of a session setup the
/// token is handed out as the client sent it, and the session is as it was.
pub proof fn law_a_client_is_accepted_step_by_step(
    work: AcceptingView,
    read: Option<MessageView>,
)
    requires
        work.due.is_message(),
    ensures
        work.take(read) is Ok ==> {
            &&& read matches Some(request)
            &&& request.command == match work.due {
                DueView::Negotiate => 0u16,
                DueView::Tree => 3u16,
                _ => 1u16,
            }
        },
        match work.take(read) {
            Ok(AcceptView::Answer(next, answer)) => {
                &&& work.due is Negotiate
                &&& next.due is Setup
                &&& next.session == work.session
                &&& answer.status == 0
                &&& answer.flags == 1
                &&& answer.message_id == read->0.message_id
                &&& u16_at(answer.body, 4) == 0x0202
            },
            Ok(AcceptView::Negotiate(next, token)) => {
                &&& work.due is Setup
                &&& next.due == DueView::Offer(read->0)
                &&& next.session == work.session
                &&& token_in(read->0.body) == Ok::<Seq<u8>, Fault>(token)
            },
            Ok(AcceptView::Authenticate(next, token)) => {
                &&& work.due is Logon
                &&& next.due == DueView::Confirm(read->0)
                &&& next.session == work.session
                &&& token_in(read->0.body) == Ok::<Seq<u8>, Fault>(token)
            },
            Ok(AcceptView::Connected(session, answer)) => {
                &&& work.due is Tree
                &&& answer.status == 0
                &&& session.files == work.session.files
                &&& session.handles == work.session.handles
            },
            Ok(AcceptView::Refused(answer, _)) => work.due is Tree && answer.status == 0xC000_00CC,
            Err(fault) => !fault.retryable,
        },
{
    let body = negotiate_response_body();
    assert(body.subrange(4, 6) =~= le16(0x0202));
    law_u16_reads_back(body, 4, 0x0202);
}

/// A challenge is handed to the client as it was given, in an answer that asks
/// for more and carries the session's id; the logon is due then. The client is
/// logged on exactly where its identity could be read, and its tree connect is
/// due then; where it could not, that is the failure.
pub proof fn law_a_client_is_challenged_and_logged_on(
    work: AcceptingView,
    request: MessageView,
    challenge: Seq<u8>,
    identified: Result<(), Seq<char>>,
)
    requires
        challenge.len() <= 0xFFFF,
    ensures
        work.due == DueView::Offer(request) ==> {
            let (next, answer) = work.offer(challenge);
            &&& next.due is Logon
            &&& next.session == work.session
            &&& answer.status == 0xC000_0016
            &&& answer.message_id == request.message_id
            &&& answer.session_id == work.session.id
            &&& answer.flags == 1
            &&& token_in(answer.body) == Ok::<Seq<u8>, Fault>(challenge)
        },
        work.due == DueView::Confirm(request) ==> match work.confirm(identified) {
            Ok((next, answer)) => {
                &&& identified is Ok
                &&& next.due is Tree
                &&& next.session == work.session
                &&& answer.status == 0
                &&& answer.message_id == request.message_id
                &&& answer.flags == 1
                &&& token_in(answer.body) == Ok::<Seq<u8>, Fault>(Seq::empty())
            },
            Err(fault) => identified == Err::<(), Seq<char>>(fault.message) && !fault.retryable,
        },
{
    law_session_token_reads_back(true, challenge);
    law_session_token_reads_back(true, Seq::empty());
}

} // verus!
