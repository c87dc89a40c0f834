//! What a receive and a session come to together: each message of the receive
//! handed to the far end, and each answer handed back.

use vstd::prelude::*;

use crate::arrived::{law_an_origin_names_its_file, origin_of, ArrivedView};
use crate::client::{
    chunks_of, connecting, law_a_connection_goes_on_only_with_success, querying, reading,
    status_fault, visible, ClientView, ConnectingView, ListingView, QueryView, Stage, Step,
    StepView, CHUNK,
};
use crate::directory;
use crate::directory::entries;
use crate::error::{Fault, TransportError};
use crate::far_end::{
    connected_client, connects, law_a_client_is_connected, lemma_closes, lemma_handed_out_later,
    lemma_lists, lemma_no_options, lemma_opens, lemma_reads, lemma_served_share, presentable,
    ready, recognizes, serving, with_closed, with_open, FarEnd,
};
use crate::message::{
    close_request_body, create_fields_in, created_in, data_in, file_id, id_at,
    law_close_request_reads_back, law_create_request_reads_back, FILE_DELETE_ON_CLOSE,
    FILE_DIRECTORY, FILE_OPEN,
};
use crate::ntlm::IdentityView;
use crate::sending::{law_a_sent_file_arrives, sends};
use crate::session::{content, EventView, SessionView, SHARE};
use crate::share::{law_files_are_listed, law_names_are_ordered, listing, precedes};
use crate::transfer::{
    logoff_of, path_of, receiving, sending, ReceiveWorkView, Received, ReceivedView, Receiving,
    ReceivingView, SmbTransportView,
};
use crate::utf16::utf16;
use crate::wire;
use crate::wire::{read_view, Message, MessageView, HEADER, MAX_MESSAGE};

verus! {

/// A receive that has come to `step`, and the far end, after `turns` more
/// messages and answers: what became of the far end, and what arrived or the
/// failure the receive ends in. `None` where it takes more turns.
#[verifier::opaque]
pub open spec fn receives(
    step: StepView<ReceivingView, ReceivedView>,
    far: FarEnd,
    turns: nat,
) -> Option<(FarEnd, Result<ReceivedView, Fault>)>
    decreases turns,
{
    match step {
        StepView::Done(received) => Some((far, Ok(received))),
        StepView::Ask(receiving, request) => if turns == 0 {
            None
        } else {
            match far.answers(request) {
                None => None,
                Some(Err(fault)) => Some((far, Err(fault))),
                Some(Ok((after, answer))) => match receiving.take(Some(answer)) {
                    Err(fault) => Some((after, Err(fault))),
                    Ok(next) => receives(next, after, (turns - 1) as nat),
                },
            }
        },
    }
}

/// A receive goes through connecting as the connection alone does, where that
/// succeeds.
proof fn lemma_receives_connect(
    work: ReceivingView,
    connection: ConnectingView,
    request: MessageView,
    far: FarEnd,
    turns: nat,
)
    requires
        connects(StepView::Ask(connection, request), far, turns) matches Some((_, Ok(_), _)),
    ensures
        connects(StepView::Ask(connection, request), far, turns) matches Some(
            (after, Ok(client), left),
        ) && {
            let (query, open_root) = querying(client, "*"@);
            receives(work.asks(ReceiveWorkView::Connecting(connection), request), far, turns)
                == receives(work.asks(ReceiveWorkView::Listing(query), open_root), after, left)
        },
    decreases turns,
{
    reveal_with_fuel(connects, 2);
    reveal_with_fuel(receives, 1);
    if let Some(Ok((after, answer))) = far.answers(request) {
        if let Ok(StepView::Ask(next, message)) = connection.take(Some(answer)) {
            lemma_receives_connect(work, next, message, after, (turns - 1) as nat);
        }
    }
}

/// The far end once its files were listed.
pub open spec fn with_listed(far: FarEnd) -> FarEnd {
    FarEnd {
        session: SessionView {
            next_handle: (far.session.next_handle + 1) as u64,
            ..far.session
        },
        events: far.events.push(EventView::Listed),
        ..far
    }
}

proof fn lemma_receives_listing(work: ReceivingView, far: FarEnd, client: ClientView, turns: nat)
    requires
        far.phase is Serving,
        far.session.valid(),
        far.session.next_handle < u64::MAX,
        entries(listing(far.session.files)).len() + HEADER + 8 <= MAX_MESSAGE,
        client.next_message_id + 2 < u64::MAX,
        turns >= 3,
    ensures
        ({
            let (query, open_root) = querying(client, "*"@);
            let after = ClientView {
                next_message_id: (client.next_message_id + 3) as u64,
                ..client
            };
            receives(work.asks(ReceiveWorkView::Listing(query), open_root), far, turns)
                == receives(
                work.listed(after, visible(listing(far.session.files))),
                with_listed(far),
                (turns - 3) as nat,
            )
        }),
{
    let pattern = "*"@;
    reveal_strlit("*");
    reveal_with_fuel(utf16, 2);
    let none = Seq::<char>::empty();
    let (query, open_root) = querying(client, pattern);
    let root = file_id(far.session.next_handle);
    assert(root.len() == 16);
    lemma_no_options();
    assert(utf16(none).len() == 0);
    let opening = lemma_opens(far, client, none, FILE_OPEN, FILE_DIRECTORY);
    let open = with_open(far, none, FILE_OPEN, FILE_DIRECTORY);
    let first = client.next();
    let asking = ListingView {
        client: first.next(),
        pattern,
        query: QueryView::Querying(root),
    };
    let query_request = first.request(
        wire::QUERY_DIRECTORY,
        directory::request_body(root, pattern),
    );
    let step = work.asks(ReceiveWorkView::Listing(query), open_root);
    let second_step = work.asks(ReceiveWorkView::Listing(asking), query_request);
    assert(receives(step, far, turns) == receives(second_step, open, (turns - 1) as nat)) by {
        reveal(receives);
    }
    let answer = lemma_lists(open, first, root, pattern);
    let listed = FarEnd { events: open.events.push(EventView::Listed), ..open };
    let second = first.next();
    let closing = ListingView {
        client: second.next(),
        pattern,
        query: QueryView::ClosingRoot(answer),
    };
    let close_request = second.request(wire::CLOSE, close_request_body(root));
    let third_step = work.asks(ReceiveWorkView::Listing(closing), close_request);
    assert(receives(second_step, open, (turns - 1) as nat) == receives(
        third_step,
        listed,
        (turns - 2) as nat,
    )) by {
        reveal(receives);
    }
    let closed = lemma_closes(listed, second, root);
    assert(with_closed(listed, root).session.handles =~= far.session.handles);
    assert(with_closed(listed, root) == with_listed(far));
    assert(receives(third_step, listed, (turns - 2) as nat) == receives(
        work.listed(second.next(), visible(listing(far.session.files))),
        with_listed(far),
        (turns - 3) as nat,
    )) by {
        reveal(receives);
    }
}

/// How many messages the reading of `length` bytes takes.
pub open spec fn read_turns(length: nat) -> nat
    decreases length,
{
    if length == 0 {
        0
    } else if length <= CHUNK {
        1
    } else {
        1 + read_turns((length - CHUNK) as nat)
    }
}

/// The reports of `name` being read `count` times.
pub open spec fn read_events(name: Seq<char>, count: nat) -> Seq<EventView> {
    Seq::new(count, |i: int| EventView::Read(name))
}

/// One chunk is asked for, answered and added to what was read.
proof fn lemma_receives_chunk(
    work: ReceivingView,
    far: FarEnd,
    client: ClientView,
    id: Seq<u8>,
    length: u64,
    sofar: Seq<u8>,
    after: FarEnd,
    answer: MessageView,
    data: Seq<u8>,
    turns: nat,
)
    requires
        sofar.len() < length,
        reading(client, id, length, sofar) matches StepView::Ask(_, request) && far.answers(
            request,
        ) == Some(Ok::<(FarEnd, MessageView), Fault>((after, answer))),
        client.next().success(Some(answer)) == Ok::<MessageView, Fault>(answer),
        data_in(answer.body) == Ok::<Seq<u8>, Fault>(data),
        data.len() > 0,
        work.transport.allows((sofar + data).len()) is Ok,
        turns >= 1,
    ensures
        receives(work.reads(id, reading(client, id, length, sofar)), far, turns) == receives(
            work.reads(id, reading(client.next(), id, length, sofar + data)),
            after,
            (turns - 1) as nat,
        ),
{
    reveal(receives);
}

/// Where the chunk that starts at `at` of a file ends.
spec fn chunk_end(length: nat, at: nat) -> nat {
    if length - at < CHUNK {
        length
    } else {
        at + CHUNK as nat
    }
}

/// A receive that has read the first `at` bytes of a file reads the next chunk.
proof fn lemma_receives_read(
    work: ReceivingView,
    far: FarEnd,
    client: ClientView,
    id: Seq<u8>,
    at: nat,
    turns: nat,
)
    requires
        far.phase is Serving,
        far.session.handles.dom().contains(id),
        id.len() == 16,
        at < content(far.session.files, far.session.handles[id].name).len() <= u64::MAX,
        client.next_message_id < u64::MAX,
        work.transport.allows(
            content(far.session.files, far.session.handles[id].name).len(),
        ) is Ok,
        turns >= 1,
    ensures
        ({
            let name = far.session.handles[id].name;
            let bytes = content(far.session.files, name);
            let length = bytes.len() as u64;
            let end = chunk_end(bytes.len(), at);
            receives(
                work.reads(id, reading(client, id, length, bytes.take(at as int))),
                far,
                turns,
            ) == receives(
                work.reads(id, reading(client.next(), id, length, bytes.take(end as int))),
                FarEnd { events: far.events.push(EventView::Read(name)), ..far },
                (turns - 1) as nat,
            )
        }),
{
    let name = far.session.handles[id].name;
    let bytes = content(far.session.files, name);
    let length = bytes.len() as u64;
    let end = chunk_end(bytes.len(), at);
    let want = (end - at) as u32;
    let sofar = bytes.take(at as int);
    let data = bytes.subrange(at as int, end as int);
    let answer = lemma_reads(far, client, id, at as u64, want);
    assert(sofar + data =~= bytes.take(end as int));
    let after = FarEnd { events: far.events.push(EventView::Read(name)), ..far };
    lemma_receives_chunk(work, far, client, id, length, sofar, after, answer, data, turns);
}

/// A receive that has read the first `at` bytes of a file goes on until it has
/// read them all.
proof fn lemma_receives_reads(
    work: ReceivingView,
    far: FarEnd,
    client: ClientView,
    id: Seq<u8>,
    at: nat,
    turns: nat,
)
    requires
        far.phase is Serving,
        far.session.handles.dom().contains(id),
        id.len() == 16,
        at <= content(far.session.files, far.session.handles[id].name).len() <= u64::MAX,
        work.transport.allows(
            content(far.session.files, far.session.handles[id].name).len(),
        ) is Ok,
        client.next_message_id + read_turns(
            (content(far.session.files, far.session.handles[id].name).len() - at) as nat,
        ) < u64::MAX,
        turns >= read_turns(
            (content(far.session.files, far.session.handles[id].name).len() - at) as nat,
        ),
    ensures
        ({
            let name = far.session.handles[id].name;
            let bytes = content(far.session.files, name);
            let count = read_turns((bytes.len() - at) as nat);
            let after = ClientView {
                next_message_id: (client.next_message_id + count) as u64,
                ..client
            };
            receives(
                work.reads(id, reading(client, id, bytes.len() as u64, bytes.take(at as int))),
                far,
                turns,
            ) == receives(
                work.reads(id, StepView::Done((after, bytes))),
                FarEnd { events: far.events + read_events(name, count), ..far },
                (turns - count) as nat,
            )
        }),
    decreases content(far.session.files, far.session.handles[id].name).len() - at,
{
    let name = far.session.handles[id].name;
    let bytes = content(far.session.files, name);
    let count = read_turns((bytes.len() - at) as nat);
    if at == bytes.len() {
        assert(bytes.take(at as int) =~= bytes);
        assert(far.events + read_events(name, 0) =~= far.events);
    } else {
        let next = chunk_end(bytes.len(), at);
        let after = FarEnd { events: far.events.push(EventView::Read(name)), ..far };
        assert(read_turns((bytes.len() - next) as nat) == count - 1);
        lemma_receives_read(work, far, client, id, at, turns);
        lemma_receives_reads(work, after, client.next(), id, next, (turns - 1) as nat);
        assert(after.events + read_events(name, (count - 1) as nat) =~= far.events + read_events(
            name,
            count,
        ));
    }
}

/// How many messages the receiving of one file of `length` bytes takes.
pub open spec fn file_turns(length: nat, delete: bool) -> nat {
    2 + read_turns(length) + if delete {
        2nat
    } else {
        0nat
    }
}

/// The reports of one file of `length` bytes being received.
pub open spec fn file_events(name: Seq<char>, length: nat, delete: bool) -> Seq<EventView> {
    let read = seq![EventView::Created(name)] + read_events(name, read_turns(length));
    if delete {
        read + seq![EventView::Created(name), EventView::Removed(name)]
    } else {
        read
    }
}

/// The far end once the file `name` was received.
pub open spec fn with_received(far: FarEnd, name: Seq<char>, delete: bool) -> FarEnd {
    let session = far.session;
    let length = content(session.files, name).len();
    FarEnd {
        session: SessionView {
            files: if delete {
                session.files.remove(name)
            } else {
                session.files
            },
            next_handle: (session.next_handle + if delete {
                2int
            } else {
                1int
            }) as u64,
            ..session
        },
        events: far.events + file_events(name, length, delete),
        ..far
    }
}

/// A receive reads a file and closes it.
proof fn lemma_receives_bytes(work: ReceivingView, far: FarEnd, client: ClientView, turns: nat)
    requires
        far.phase is Serving,
        far.session.valid(),
        far.session.next_handle < u64::MAX,
        work.names.len() > 0,
        far.session.files.dom().contains(work.names[0]),
        utf16(work.names[0]).len() <= 0xFFFF,
        far.session.files[work.names[0]].len() <= u64::MAX,
        work.transport.allows(far.session.files[work.names[0]].len()) is Ok,
        client.next_message_id + 2 + read_turns(far.session.files[work.names[0]].len())
            < u64::MAX,
        turns >= 2 + read_turns(far.session.files[work.names[0]].len()),
    ensures
        ({
            let bytes = far.session.files[work.names[0]];
            let count = 2 + read_turns(bytes.len());
            let after = ClientView {
                next_message_id: (client.next_message_id + count) as u64,
                ..client
            };
            receives(work.next_file(client), far, turns) == receives(
                work.closed(after, bytes),
                with_received(far, work.names[0], false),
                (turns - count) as nat,
            )
        }),
{
    let name = work.names[0];
    let bytes = far.session.files[name];
    let reads = read_turns(bytes.len());
    let id = file_id(far.session.next_handle);
    assert(id.len() == 16);
    lemma_no_options();
    let opening = lemma_opens(far, client, name, FILE_OPEN, 0);
    let open = with_open(far, name, FILE_OPEN, 0);
    assert(bytes.take(0) =~= Seq::empty());
    let reading_step = work.reads(
        id,
        reading(client.next(), id, bytes.len() as u64, bytes.take(0)),
    );
    assert(receives(work.next_file(client), far, turns) == receives(
        reading_step,
        open,
        (turns - 1) as nat,
    )) by {
        reveal(receives);
    }
    lemma_receives_reads(work, open, client.next(), id, 0, (turns - 1) as nat);
    let read = FarEnd { events: open.events + read_events(name, reads), ..open };
    let reader = ClientView {
        next_message_id: (client.next_message_id + 1 + reads) as u64,
        ..client
    };
    let closing = lemma_closes(read, reader, id);
    let closed = with_closed(read, id);
    let received = with_received(far, name, false);
    assert(closed.session.handles =~= received.session.handles);
    assert(closed.events =~= received.events);
    assert(receives(
        work.reads(id, StepView::Done((reader, bytes))),
        read,
        (turns - 1 - reads) as nat,
    ) == receives(
        work.closed(reader.next(), bytes),
        received,
        (turns - 2 - reads) as nat,
    )) by {
        reveal(receives);
    }
}

/// A receive that removes files removes the one it has read.
proof fn lemma_receives_removal(
    work: ReceivingView,
    far: FarEnd,
    client: ClientView,
    bytes: Seq<u8>,
    turns: nat,
)
    requires
        far.phase is Serving,
        far.session.valid(),
        far.session.next_handle < u64::MAX,
        work.transport.delete_after_retrieve,
        work.names.len() > 0,
        far.session.files.dom().contains(work.names[0]),
        utf16(work.names[0]).len() <= 0xFFFF,
        client.next_message_id + 2 < u64::MAX,
        turns >= 2,
    ensures
        ({
            let name = work.names[0];
            let after = ClientView {
                next_message_id: (client.next_message_id + 2) as u64,
                ..client
            };
            let removed = FarEnd {
                session: SessionView {
                    files: far.session.files.remove(name),
                    next_handle: (far.session.next_handle + 1) as u64,
                    ..far.session
                },
                events: far.events + seq![EventView::Created(name), EventView::Removed(name)],
                ..far
            };
            receives(work.closed(client, bytes), far, turns) == receives(
                work.took(after, bytes),
                removed,
                (turns - 2) as nat,
            )
        }),
{
    let name = work.names[0];
    let id = file_id(far.session.next_handle);
    assert(id.len() == 16);
    lemma_no_options();
    let opening = lemma_opens(far, client, name, FILE_OPEN, FILE_DELETE_ON_CLOSE);
    let open = with_open(far, name, FILE_OPEN, FILE_DELETE_ON_CLOSE);
    let second = client.next();
    let removing = work.asks(
        ReceiveWorkView::Removing(second.next(), bytes),
        second.request(wire::CLOSE, close_request_body(id)),
    );
    assert(receives(work.closed(client, bytes), far, turns) == receives(
        removing,
        open,
        (turns - 1) as nat,
    )) by {
        reveal(receives);
    }
    let closing = lemma_closes(open, second, id);
    let closed = with_closed(open, id);
    assert(closed.session.handles =~= far.session.handles);
    assert(closed.events =~= far.events + seq![
        EventView::Created(name),
        EventView::Removed(name),
    ]);
    assert(receives(removing, open, (turns - 1) as nat) == receives(
        work.took(second.next(), bytes),
        closed,
        (turns - 2) as nat,
    )) by {
        reveal(receives);
    }
}

/// What arrives where `names` are received: each file's bytes, with where they
/// came from.
pub open spec fn arrivals(
    transport: SmbTransportView,
    names: Seq<Seq<char>>,
    files: Map<Seq<char>, Seq<u8>>,
) -> Seq<ArrivedView> {
    Seq::new(
        names.len(),
        |i: int|
            ArrivedView {
                origin_uri: origin_of(transport.server, transport.share, names[i]),
                bytes: files[names[i]],
            },
    )
}

/// How many messages the receiving of `names` takes.
pub open spec fn files_turns(
    names: Seq<Seq<char>>,
    files: Map<Seq<char>, Seq<u8>>,
    delete: bool,
) -> nat
    decreases names.len(),
{
    if names.len() == 0 {
        0
    } else {
        file_turns(files[names[0]].len(), delete) + files_turns(names.drop_first(), files, delete)
    }
}

/// The reports of `names` being received.
pub open spec fn files_events(
    names: Seq<Seq<char>>,
    files: Map<Seq<char>, Seq<u8>>,
    delete: bool,
) -> Seq<EventView>
    decreases names.len(),
{
    if names.len() == 0 {
        Seq::empty()
    } else {
        file_events(names[0], files[names[0]].len(), delete) + files_events(
            names.drop_first(),
            files,
            delete,
        )
    }
}

/// The far end once `names` were received: removed, where files are removed,
/// and otherwise as they were.
pub open spec fn with_all_received(far: FarEnd, names: Seq<Seq<char>>, delete: bool) -> FarEnd {
    let session = far.session;
    FarEnd {
        session: SessionView {
            files: if delete {
                session.files.remove_keys(names.to_set())
            } else {
                session.files
            },
            next_handle: (session.next_handle + if delete {
                2 * names.len()
            } else {
                names.len()
            }) as u64,
            ..session
        },
        events: far.events + files_events(names, session.files, delete),
        ..far
    }
}

/// Each of `names` is a file whose name and length are short enough to be
/// counted, and that is not longer than the largest.
pub open spec fn fetchable(
    transport: SmbTransportView,
    names: Seq<Seq<char>>,
    files: Map<Seq<char>, Seq<u8>>,
) -> bool {
    forall|i: int|
        0 <= i < names.len() ==> files.dom().contains(#[trigger] names[i]) && utf16(
            names[i],
        ).len() <= 0xFFFF && files[names[i]].len() <= isize::MAX && transport.allows(
            files[names[i]].len(),
        ) is Ok
}

/// Files that are not there any more make no difference to the rest.
proof fn lemma_others_stay(
    transport: SmbTransportView,
    names: Seq<Seq<char>>,
    files: Map<Seq<char>, Seq<u8>>,
    gone: Seq<char>,
    delete: bool,
)
    requires
        !names.contains(gone),
        fetchable(transport, names, files),
    ensures
        fetchable(transport, names, files.remove(gone)),
        arrivals(transport, names, files.remove(gone)) == arrivals(transport, names, files),
        files_turns(names, files.remove(gone), delete) == files_turns(names, files, delete),
        files_events(names, files.remove(gone), delete) == files_events(names, files, delete),
    decreases names.len(),
{
    let fewer = files.remove(gone);
    assert forall|i: int| 0 <= i < names.len() implies files.dom().contains(#[trigger] names[i])
        && names[i] != gone by {
        assert(names.contains(names[i]));
    }
    assert(arrivals(transport, names, fewer) =~= arrivals(transport, names, files));
    if names.len() > 0 {
        let rest = names.drop_first();
        assert forall|name: Seq<char>| rest.contains(name) implies names.contains(name) by {
            let i = choose|i: int| 0 <= i < rest.len() && rest[i] == name;
            assert(names[i + 1] == name);
        }
        assert forall|i: int| 0 <= i < rest.len() implies files.dom().contains(
            #[trigger] rest[i],
        ) && utf16(rest[i]).len() <= 0xFFFF && files[rest[i]].len() <= isize::MAX && transport.allows(
            files[rest[i]].len(),
        ) is Ok by {
            assert(rest[i] == names[i + 1]);
        }
        lemma_others_stay(transport, rest, files, gone, delete);
        assert(names[0] != gone);
    }
}

/// A receive that has read a file, removed it where files are removed, goes on
/// to the next.
proof fn lemma_receives_file(work: ReceivingView, far: FarEnd, client: ClientView, turns: nat)
    requires
        far.phase is Serving,
        far.session.valid(),
        far.session.next_handle + 1 < u64::MAX,
        work.names.len() > 0,
        far.session.files.dom().contains(work.names[0]),
        utf16(work.names[0]).len() <= 0xFFFF,
        far.session.files[work.names[0]].len() <= u64::MAX,
        work.transport.allows(far.session.files[work.names[0]].len()) is Ok,
        client.next_message_id + file_turns(
            far.session.files[work.names[0]].len(),
            work.transport.delete_after_retrieve,
        ) < u64::MAX,
        turns >= file_turns(
            far.session.files[work.names[0]].len(),
            work.transport.delete_after_retrieve,
        ),
    ensures
        ({
            let name = work.names[0];
            let bytes = far.session.files[name];
            let delete = work.transport.delete_after_retrieve;
            let count = file_turns(bytes.len(), delete);
            let after = ClientView {
                next_message_id: (client.next_message_id + count) as u64,
                ..client
            };
            receives(work.next_file(client), far, turns) == receives(
                work.took(after, bytes),
                with_received(far, name, delete),
                (turns - count) as nat,
            )
        }),
{
    let name = work.names[0];
    let bytes = far.session.files[name];
    let reads = read_turns(bytes.len());
    lemma_receives_bytes(work, far, client, turns);
    let reader = ClientView {
        next_message_id: (client.next_message_id + 2 + reads) as u64,
        ..client
    };
    if work.transport.delete_after_retrieve {
        let read = with_received(far, name, false);
        assert(read.session.valid()) by {
            lemma_handed_out_later(far.session, read.session);
        }
        lemma_receives_removal(work, read, reader, bytes, (turns - 2 - reads) as nat);
        assert(read.events + seq![EventView::Created(name), EventView::Removed(name)]
            =~= with_received(far, name, true).events);
    }
}

proof fn lemma_receives_all(work: ReceivingView, far: FarEnd, client: ClientView, turns: nat)
    requires
        far.phase is Serving,
        far.session.valid(),
        far.session.next_handle + 2 * work.names.len() < u64::MAX,
        work.names.no_duplicates(),
        fetchable(work.transport, work.names, far.session.files),
        client.next_message_id + files_turns(
            work.names,
            far.session.files,
            work.transport.delete_after_retrieve,
        ) < u64::MAX,
        turns >= files_turns(
            work.names,
            far.session.files,
            work.transport.delete_after_retrieve,
        ),
    ensures
        ({
            let delete = work.transport.delete_after_retrieve;
            let files = far.session.files;
            let count = files_turns(work.names, files, delete);
            let after = ClientView {
                next_message_id: (client.next_message_id + count) as u64,
                ..client
            };
            receives(work.next_file(client), far, turns) == Some(
                (
                    with_all_received(far, work.names, delete),
                    Ok::<ReceivedView, Fault>(
                        ReceivedView {
                            logoff: logoff_of(after),
                            arrived: work.arrived + arrivals(work.transport, work.names, files),
                        },
                    ),
                ),
            )
        }),
    decreases work.names.len(),
{
    let delete = work.transport.delete_after_retrieve;
    let names = work.names;
    let files = far.session.files;
    let all = with_all_received(far, names, delete);
    if names.len() == 0 {
        reveal(receives);
        assert(work.arrived + arrivals(work.transport, names, files) =~= work.arrived);
        assert(all.events =~= far.events);
        assert(names.to_set() =~= Set::empty());
        assert(files.remove_keys(names.to_set()) =~= files);
        assert(all == far);
    } else {
        let name = names[0];
        let rest = names.drop_first();
        let count = file_turns(files[name].len(), delete);
        lemma_receives_file(work, far, client, turns);
        let next = with_received(far, name, delete);
        let after = ClientView {
            next_message_id: (client.next_message_id + count) as u64,
            ..client
        };
        let arrived = ArrivedView {
            origin_uri: origin_of(work.transport.server, work.transport.share, name),
            bytes: files[name],
        };
        let more = ReceivingView {
            names: rest,
            arrived: work.arrived.push(arrived),
            ..work
        };
        assert(next.session.valid()) by {
            lemma_handed_out_later(far.session, next.session);
        }
        assert(!rest.contains(name)) by {
            if rest.contains(name) {
                let i = choose|i: int| 0 <= i < rest.len() && rest[i] == name;
                assert(names[i + 1] == names[0]);
            }
        }
        assert(rest.no_duplicates());
        assert forall|i: int| 0 <= i < rest.len() implies files.dom().contains(
            #[trigger] rest[i],
        ) && utf16(rest[i]).len() <= 0xFFFF && files[rest[i]].len() <= isize::MAX
            && work.transport.allows(files[rest[i]].len()) is Ok by {
            assert(rest[i] == names[i + 1]);
        }
        lemma_others_stay(work.transport, rest, files, name, delete);
        lemma_receives_all(more, next, after, (turns - count) as nat);
        assert(more.arrived + arrivals(work.transport, rest, files) =~= work.arrived + arrivals(
            work.transport,
            names,
            files,
        ));
        let others = with_all_received(next, rest, delete);
        assert(others.events =~= all.events);
        if delete {
            assert(names.to_set() =~= rest.to_set().insert(name)) by {
                assert forall|n: Seq<char>| names.to_set().contains(n) == rest.to_set().insert(
                    name,
                ).contains(n) by {
                    if names.contains(n) {
                        let i = choose|i: int| 0 <= i < names.len() && names[i] == n;
                        if i > 0 {
                            assert(rest[i - 1] == n);
                        }
                    }
                    if rest.contains(n) {
                        let i = choose|i: int| 0 <= i < rest.len() && rest[i] == n;
                        assert(names[i + 1] == n);
                    }
                    assert(names.contains(names[0]));
                }
            }
            assert(others.session.files =~= all.session.files);
        }
        assert(others == all);
    }
}

proof fn lemma_visible(names: Seq<Seq<char>>)
    requires
        names.no_duplicates(),
    ensures
        visible(names).no_duplicates(),
        visible(names).len() <= names.len(),
        forall|name: Seq<char>| #[trigger]
            visible(names).contains(name) <==> names.contains(name) && name != "."@ && name
                != ".."@,
    decreases names.len(),
{
    if names.len() > 0 {
        let shorter = names.drop_last();
        let last = names.last();
        lemma_visible(shorter);
        assert(!shorter.contains(last)) by {
            if shorter.contains(last) {
                let i = choose|i: int| 0 <= i < shorter.len() && shorter[i] == last;
                assert(names[i] == names[names.len() - 1]);
            }
        }
        let seen = visible(shorter);
        assert forall|name: Seq<char>| #[trigger] visible(names).contains(name) <==> names.contains(
            name,
        ) && name != "."@ && name != ".."@ by {
            if names.contains(name) && name != last {
                let i = choose|i: int| 0 <= i < names.len() && names[i] == name;
                assert(shorter[i] == name);
            }
            if shorter.contains(name) {
                let i = choose|i: int| 0 <= i < shorter.len() && shorter[i] == name;
                assert(names[i] == name);
            }
            assert(names.contains(last)) by {
                assert(names[names.len() - 1] == last);
            }
            if seen.contains(name) {
                let i = choose|i: int| 0 <= i < seen.len() && seen[i] == name;
                assert(seen.push(last)[i] == name);
            }
            assert(seen.push(last)[seen.len() as int] == last);
            if seen.push(last).contains(name) && name != last {
                let i = choose|i: int|
                    0 <= i < seen.push(last).len() && seen.push(last)[i] == name;
                assert(seen[i] == name);
            }
        }
        assert(visible(names).no_duplicates()) by {
            assert(!seen.contains(last));
        }
    }
}

/// A receive takes every file on the share: what arrives is each file's bytes
/// with where they came from, in the order of the listing, and each file is
/// removed then, or left as it was where the transport was told to leave them.
pub proof fn law_a_receive_takes_every_file(transport: SmbTransportView, far: FarEnd, turns: nat)
    requires
        ready(far),
        recognizes(far, transport.identity),
        transport.share == SHARE@,
        presentable(transport.identity, transport.server, transport.share),
        entries(listing(far.session.files)).len() + HEADER + 8 <= MAX_MESSAGE,
        fetchable(transport, visible(listing(far.session.files)), far.session.files),
        far.session.next_handle + 1 + 2 * listing(far.session.files).len() < u64::MAX,
        turns >= 7 + files_turns(
            visible(listing(far.session.files)),
            far.session.files,
            transport.delete_after_retrieve,
        ),
        turns < u64::MAX,
    ensures
        ({
            let (start, request) = receiving(transport);
            let files = far.session.files;
            let names = visible(listing(files));
            let delete = transport.delete_after_retrieve;
            let client = ClientView {
                session_id: far.session.id,
                tree_id: 1,
                next_message_id: (7 + files_turns(names, files, delete)) as u64,
            };
            &&& receives(StepView::Ask(start, request), far, turns) == Some(
                (
                    with_all_received(with_listed(serving(far)), names, delete),
                    Ok::<ReceivedView, Fault>(
                        ReceivedView {
                            logoff: logoff_of(client),
                            arrived: arrivals(transport, names, files),
                        },
                    ),
                ),
            )
            &&& forall|name: Seq<char>| #[trigger]
                names.contains(name) <==> files.dom().contains(name) && name != "."@ && name
                    != ".."@
        }),
{
    let (start, _) = receiving(transport);
    let files = far.session.files;
    let names = visible(listing(files));
    let delete = transport.delete_after_retrieve;
    let client = connected_client(far.session.id);
    let left = (turns - 4) as nat;
    let (connection, asked) = connecting(
        path_of(transport.server, transport.share),
        transport.identity,
    );
    lemma_served_share();
    law_a_client_is_connected(transport.identity, transport.server, SHARE@, far, turns);
    lemma_receives_connect(start, connection, asked, far, turns);
    law_files_are_listed(files);
    let all = listing(files);
    assert(all.no_duplicates()) by {
        assert forall|i: int, j: int|
            0 <= i < all.len() && 0 <= j < all.len() && i != j implies all[i] != all[j] by {
            law_names_are_ordered(all[i], all[j], all[i]);
            if i < j {
                assert(precedes(all[i], all[j]));
            } else {
                assert(precedes(all[j], all[i]));
            }
        }
    }
    lemma_visible(all);
    lemma_receives_listing(start, serving(far), client, left);
    let after = ClientView { next_message_id: 7, ..client };
    let listed = with_listed(serving(far));
    assert(listed.session.valid()) by {
        lemma_handed_out_later(far.session, listed.session);
    }
    let work = ReceivingView { names, ..start };
    lemma_receives_all(work, listed, after, (left - 3) as nat);
    assert(Seq::<ArrivedView>::empty() + arrivals(transport, names, files) =~= arrivals(
        transport,
        names,
        files,
    ));
}

/// What was sent is what is received: where a session holds the files that a
/// send left, a receive from it takes exactly the bytes that were sent.
pub proof fn law_what_is_sent_is_received(
    identity: IdentityView,
    server: Seq<char>,
    name: Seq<char>,
    bytes: Seq<u8>,
    far: FarEnd,
    transport: SmbTransportView,
    other: FarEnd,
    turns: nat,
)
    requires
        ready(far),
        recognizes(far, identity),
        far.session.next_handle < u64::MAX,
        presentable(identity, server, SHARE@),
        utf16(name).len() <= 0xFFFF,
        name != "."@,
        name != ".."@,
        bytes.len() <= isize::MAX,
        ready(other),
        recognizes(other, transport.identity),
        sends(
            StepView::Ask(
                sending(identity, server, SHARE@, name, bytes).0,
                sending(identity, server, SHARE@, name, bytes).1,
            ),
            far,
            chunks_of(bytes).len() + 6,
        ) matches Some((after, _)) && other.session.files == after.session.files,
        transport.share == SHARE@,
        presentable(transport.identity, transport.server, transport.share),
        entries(listing(other.session.files)).len() + HEADER + 8 <= MAX_MESSAGE,
        fetchable(transport, visible(listing(other.session.files)), other.session.files),
        other.session.next_handle + 1 + 2 * listing(other.session.files).len() < u64::MAX,
        turns >= 7 + files_turns(
            visible(listing(other.session.files)),
            other.session.files,
            transport.delete_after_retrieve,
        ),
        turns < u64::MAX,
    ensures
        ({
            let (start, request) = receiving(transport);
            let arrived = ArrivedView {
                origin_uri: origin_of(transport.server, transport.share, name),
                bytes,
            };
            receives(StepView::Ask(start, request), other, turns) matches Some((_, Ok(received)))
                && received.arrived.contains(arrived)
        }),
{
    law_a_sent_file_arrives(identity, server, name, bytes, far, chunks_of(bytes).len() + 6);
    law_a_receive_takes_every_file(transport, other, turns);
    let files = other.session.files;
    let names = visible(listing(files));
    assert(files.dom().contains(name));
    assert(names.contains(name));
    let i = choose|i: int| 0 <= i < names.len() && names[i] == name;
    let arrived = arrivals(transport, names, files);
    assert(arrived[i] == (ArrivedView {
        origin_uri: origin_of(transport.server, transport.share, name),
        bytes,
    }));
}

/// A file is closed only once it is read: the receive holds at least as many
/// bytes as the file was long when it was opened, or the server answered an
/// empty chunk.
pub proof fn law_a_file_is_closed_only_once_read(
    work: ReceivingView,
    read: Option<MessageView>,
    next: ReceivingView,
    request: MessageView,
)
    requires
        work.take(read) == Ok::<StepView<ReceivingView, ReceivedView>, Fault>(
            StepView::Ask(next, request),
        ),
        next.work is Closing,
    ensures
        next.names == work.names,
        next.work matches ReceiveWorkView::Closing(_, bytes) && match work.work {
            ReceiveWorkView::Opening(client) => client.opened(read) matches Ok((_, length))
                && length == 0 && bytes.len() == 0,
            ReceiveWorkView::Reading(_, reading) => reading.client.success(read) matches Ok(answer)
                && data_in(answer.body) matches Ok(data) && bytes == reading.bytes + data && (
            bytes.len() >= reading.length || data.len() == 0),
            _ => false,
        },
{
    if let ReceiveWorkView::Reading(_, reading) = work.work {
        assert(reading.bytes + Seq::<u8>::empty() =~= reading.bytes);
        if let Ok(answer) = reading.client.success(read) {
            if let Ok(data) = data_in(answer.body) {
                if data.len() == 0 {
                    assert(data =~= Seq::empty());
                }
            }
        }
    }
}

/// A file is removed only once it is closed: a receive asks to delete the file
/// it is at when the server has closed it, and goes on holding the bytes it
/// read.
pub proof fn law_a_file_is_removed_only_once_closed(
    work: ReceivingView,
    read: Option<MessageView>,
    next: ReceivingView,
    request: MessageView,
)
    requires
        work.take(read) == Ok::<StepView<ReceivingView, ReceivedView>, Fault>(
            StepView::Ask(next, request),
        ),
        next.work is OpeningToDelete,
    ensures
        work.work matches ReceiveWorkView::Closing(client, bytes) && {
            &&& client.success(read) is Ok
            &&& next.work == ReceiveWorkView::OpeningToDelete(client.next(), bytes)
            &&& next.names == work.names
        },
{
}

/// A file is removed only once it is safely a Stream: where a receive closes a
/// file and then asks to delete it, it holds at least as many bytes as the file
/// was long when it was opened, or all there were up to an empty chunk.
pub proof fn law_a_file_is_removed_only_once_read(
    work: ReceivingView,
    read: Option<MessageView>,
    closing: ReceivingView,
    close: MessageView,
    closed: Option<MessageView>,
    next: ReceivingView,
    request: MessageView,
)
    requires
        work.take(read) == Ok::<StepView<ReceivingView, ReceivedView>, Fault>(
            StepView::Ask(closing, close),
        ),
        closing.take(closed) == Ok::<StepView<ReceivingView, ReceivedView>, Fault>(
            StepView::Ask(next, request),
        ),
        next.work is OpeningToDelete,
    ensures
        next.names == work.names,
        next.work matches ReceiveWorkView::OpeningToDelete(_, bytes) && match work.work {
            ReceiveWorkView::Opening(client) => client.opened(read) matches Ok((_, length))
                && length == 0 && bytes.len() == 0,
            ReceiveWorkView::Reading(_, reading) => reading.client.success(read) matches Ok(answer)
                && data_in(answer.body) matches Ok(data) && bytes == reading.bytes + data && (
            bytes.len() >= reading.length || data.len() == 0),
            _ => false,
        },
{
    law_a_file_is_removed_only_once_closed(closing, closed, next, request);
    law_a_file_is_closed_only_once_read(work, read, closing, close);
}

/// The messages of a receive are numbered one by one: each carries the id after
/// that of the one before it.
pub proof fn law_receives_are_numbered(work: ReceivingView, read: Option<MessageView>)
    ensures
        work.take(read) matches Ok(StepView::Ask(next, request)) ==> request.message_id
            == work.work.client().next_message_id && next.work.client().next_message_id == (
        work.work.client().next_message_id + 1) as u64,
        work.take(read) matches Ok(StepView::Done(received)) ==> received.logoff.message_id
            == work.work.client().next_message_id,
{
}

/// A receive goes on only where the server did not refuse it: each message is
/// sent once what was asked before was answered with a success, the first session
/// setup with a challenge, and a query perhaps with no more files.
pub proof fn law_a_receive_goes_on_only_with_success(
    work: ReceivingView,
    read: Option<MessageView>,
)
    requires
        0 < work.work.client().next_message_id < u64::MAX,
    ensures
        work.take(read) is Ok ==> {
            &&& read matches Some(answer)
            &&& answer.message_id + 1 == work.work.client().next_message_id
            &&& match work.work {
                ReceiveWorkView::Connecting(connecting) => answer.status == if connecting.stage
                    == Stage::SettingUp {
                    0xC000_0016u32
                } else {
                    0u32
                },
                ReceiveWorkView::Listing(listing) => answer.status == 0 || listing.query is Querying
                    && answer.status == 0x8000_0006,
                _ => answer.status == 0,
            }
        },
        work.take(read) matches Err(fault) ==> match read {
            Some(answer) => work.work.at_file() && answer.message_id + 1
                == work.work.client().next_message_id && answer.status != 0 ==> fault
                == status_fault("the server answered"@, answer.status),
            None => !fault.retryable,
        },
{
    if let ReceiveWorkView::Connecting(connecting) = work.work {
        law_a_connection_goes_on_only_with_success(connecting, read);
    }
}

/// What follows a file of a receive: the next file that was listed is opened, or
/// the client logs off where there is none.
proof fn lemma_next_file(work: ReceivingView, client: ClientView)
    requires
        work.names.len() > 0 ==> utf16(work.names[0]).len() <= 0xFFFF,
    ensures
        match work.next_file(client) {
            StepView::Ask(next, request) => {
                &&& work.names.len() > 0
                &&& next.work is Opening
                &&& next.names == work.names
                &&& next.arrived == work.arrived
                &&& next.transport == work.transport
                &&& request.command == 5
                &&& create_fields_in(request.body) == Ok::<(Seq<char>, u32, u32), Fault>(
                    (work.names[0], 1, 0),
                )
            },
            StepView::Done(received) => {
                &&& work.names.len() == 0
                &&& received.arrived == work.arrived
                &&& received.logoff.command == 2
                &&& received.logoff.session_id == client.session_id
            },
        },
{
    if work.names.len() > 0 {
        law_create_request_reads_back(work.names[0], FILE_OPEN, 0);
    }
}

/// A file is taken step by step: it is opened by its name, read, closed, and,
/// where files are removed, opened to be deleted by the same name and closed
/// again; where they are left, it is not. Then it is taken, with exactly the bytes
/// that were read.
pub proof fn law_a_file_is_taken_step_by_step(work: ReceivingView, read: Option<MessageView>)
    requires
        work.work.at_file(),
        0 < work.work.client().next_message_id < u64::MAX,
        work.names.len() > 0,
        forall|i: int| 0 <= i < work.names.len() ==> utf16(#[trigger] work.names[i]).len() <= 0xFFFF,
        work.work matches ReceiveWorkView::Reading(id, _) ==> id.len() == 16,
    ensures
        match (work.work, work.take(read)) {
            (_, Err(_)) => true,
            (ReceiveWorkView::Opening(_), Ok(StepView::Ask(next, request))) => {
                &&& next.names == work.names && next.arrived == work.arrived
                &&& created_in(read->0.body) matches Ok((id, length))
                &&& match next.work {
                    ReceiveWorkView::Reading(from, reads) => {
                        &&& from == id
                        &&& reads.id == id
                        &&& reads.length == length
                        &&& reads.bytes.len() == 0
                        &&& length > 0
                        &&& request.command == 8
                    },
                    ReceiveWorkView::Closing(_, bytes) => {
                        &&& length == 0
                        &&& bytes.len() == 0
                        &&& request.command == 6
                        &&& id_at(request.body, 8) == Ok::<Seq<u8>, Fault>(id)
                    },
                    _ => false,
                }
            },
            (ReceiveWorkView::Reading(id, reads), Ok(StepView::Ask(next, request))) => {
                &&& next.names == work.names && next.arrived == work.arrived
                &&& data_in(read->0.body) matches Ok(data)
                &&& match next.work {
                    ReceiveWorkView::Reading(from, more) => {
                        &&& from == id
                        &&& more.bytes == reads.bytes + data
                        &&& request.command == 8
                    },
                    ReceiveWorkView::Closing(_, bytes) => {
                        &&& bytes == reads.bytes + data
                        &&& request.command == 6
                        &&& id_at(request.body, 8) == Ok::<Seq<u8>, Fault>(id)
                    },
                    _ => false,
                }
            },
            (ReceiveWorkView::Closing(_, bytes), Ok(step)) if work.transport.delete_after_retrieve =>
                match step {
                    StepView::Ask(next, request) => {
                        &&& next.names == work.names && next.arrived == work.arrived
                        &&& next.work matches ReceiveWorkView::OpeningToDelete(_, held)
                        &&& held == bytes
                        &&& request.command == 5
                        &&& create_fields_in(request.body) == Ok::<(Seq<char>, u32, u32), Fault>(
                            (work.names[0], 1, 0x1000),
                        )
                    },
                    StepView::Done(_) => false,
                },
            (ReceiveWorkView::OpeningToDelete(_, bytes), Ok(StepView::Ask(next, request))) => {
                &&& next.names == work.names && next.arrived == work.arrived
                &&& next.work matches ReceiveWorkView::Removing(_, held)
                &&& held == bytes
                &&& request.command == 6
                &&& created_in(read->0.body) matches Ok((id, _))
                &&& id_at(request.body, 8) == Ok::<Seq<u8>, Fault>(id)
            },
            (ReceiveWorkView::Closing(client, bytes), Ok(step)) => {
                &&& !work.transport.delete_after_retrieve
                &&& step == work.took(client, bytes)
            },
            (ReceiveWorkView::Removing(client, bytes), Ok(step)) => step == work.took(
                client,
                bytes,
            ),
            _ => false,
        },
{
    let name = work.names[0];
    match work.work {
        ReceiveWorkView::Opening(client) => {
            if let Ok((id, length)) = client.opened(read) {
                law_close_request_reads_back(id);
            }
        },
        ReceiveWorkView::Reading(id, reads) => {
            law_close_request_reads_back(id);
            if let Ok(data) = data_in(read->0.body) {
                if data.len() == 0 {
                    assert(reads.bytes + data =~= reads.bytes);
                }
            }
        },
        ReceiveWorkView::OpeningToDelete(client, bytes) => {
            if let Ok(id) = client.handle(read) {
                law_close_request_reads_back(id);
            }
        },
        ReceiveWorkView::Closing(client, bytes) => {
            law_create_request_reads_back(name, FILE_OPEN, FILE_DELETE_ON_CLOSE);
        },
        _ => {},
    }
}

/// A file that was taken has arrived: exactly its bytes are handed up, behind
/// what arrived before, with the server, the share and the name they came from,
/// each in full; the next file that was listed is opened by its name, or the
/// client logs off where that was the last.
pub proof fn law_a_taken_file_has_arrived(work: ReceivingView, client: ClientView, bytes: Seq<u8>)
    requires
        work.names.len() > 0,
        forall|i: int| 0 <= i < work.names.len() ==> utf16(#[trigger] work.names[i]).len() <= 0xFFFF,
    ensures
        ({
            let step = work.took(client, bytes);
            let arrived = match step {
                StepView::Ask(next, _) => next.arrived,
                StepView::Done(received) => received.arrived,
            };
            let server = work.transport.server;
            let share = work.transport.share;
            let uri = arrived.last().origin_uri;
            &&& arrived.len() == work.arrived.len() + 1
            &&& arrived.drop_last() == work.arrived
            &&& arrived.last().bytes == bytes
            &&& uri.len() == 8 + server.len() + share.len() + work.names[0].len()
            &&& uri.subrange(6, 6 + server.len() as int) == server
            &&& uri.subrange(7 + server.len() as int, 7 + server.len() + share.len() as int) == share
            &&& uri.skip(8 + server.len() + share.len() as int) == work.names[0]
            &&& match step {
                StepView::Ask(next, request) => {
                    &&& next.work is Opening
                    &&& next.names == work.names.skip(1)
                    &&& next.transport == work.transport
                    &&& request.command == 5
                    &&& create_fields_in(request.body) == Ok::<(Seq<char>, u32, u32), Fault>(
                        (work.names[1], 1, 0),
                    )
                },
                StepView::Done(received) => work.names.len() == 1 && received.logoff.command == 2,
            }
        }),
{
    let name = work.names[0];
    let transport = work.transport;
    law_an_origin_names_its_file(transport.server, transport.share, name, name);
    let arrived = ArrivedView {
        origin_uri: origin_of(transport.server, transport.share, name),
        bytes,
    };
    let rest = ReceivingView {
        names: work.names.drop_first(),
        arrived: work.arrived.push(arrived),
        ..work
    };
    assert(work.arrived.push(arrived).drop_last() =~= work.arrived);
    assert(work.names.skip(1) =~= work.names.drop_first());
    if work.names.len() > 1 {
        assert(rest.names[0] == work.names[1]);
    }
    lemma_next_file(rest, client);
}

/// Once the share is listed, the files that were named are taken in the order of
/// the listing, the first first; where none was named the receive is over with
/// nothing.
pub proof fn law_a_receive_takes_what_was_listed(
    work: ReceivingView,
    listing: ListingView,
    read: Option<MessageView>,
)
    requires
        work.work == ReceiveWorkView::Listing(listing),
        0 < listing.client.next_message_id < u64::MAX,
    ensures
        match (listing.take(read), work.take(read)) {
            (Err(fault), Err(failure)) => fault == failure,
            (Ok(StepView::Ask(more, request)), Ok(StepView::Ask(next, message))) => {
                &&& next.work == ReceiveWorkView::Listing(more)
                &&& message == request
                &&& next.arrived == work.arrived
            },
            (Ok(StepView::Done((client, names))), Ok(StepView::Ask(next, request))) => {
                &&& names.len() > 0
                &&& next.names == names
                &&& next.arrived == work.arrived
                &&& next.work is Opening
                &&& request.command == 5
                &&& utf16(names[0]).len() <= 0xFFFF ==> create_fields_in(request.body) == Ok::<
                    (Seq<char>, u32, u32),
                    Fault,
                >((names[0], 1, 0))
            },
            (Ok(StepView::Done((client, names))), Ok(StepView::Done(received))) => {
                &&& names.len() == 0
                &&& received.arrived == work.arrived
                &&& received.logoff.command == 2
            },
            _ => false,
        },
{
    if let Ok(StepView::Done((client, names))) = listing.take(read) {
        if names.len() > 0 && utf16(names[0]).len() <= 0xFFFF {
            law_create_request_reads_back(names[0], FILE_OPEN, 0);
        }
    }
}

/// Whatever a server answers, a receive that goes on or is over was not refused;
/// it is over only where no file is left, and hands up what arrived.
pub proof fn law_a_refused_receive_fails<'a>(
    work: Receiving<'a>,
    read: Option<Message>,
    step: Result<Step<Receiving<'a>, Received>, TransportError>,
)
    requires
        call_ensures(Receiving::<'a>::take, (work, read), step),
        0 < work@.work.client().next_message_id < u64::MAX,
    ensures
        step is Ok ==> {
            &&& read matches Some(answer)
            &&& answer.message_id + 1 == work@.work.client().next_message_id
            &&& answer.status == 0 || answer.status == 0xC000_0016 && work@.work is Connecting
                || answer.status == 0x8000_0006 && work@.work is Listing
        },
        step matches Ok(Step::Done(received)) ==> (work@.work.at_file() && work@.names.len() > 0
            ==> work@.names.len() == 1 && received@.arrived.len() == work@.arrived.len() + 1
            && received@.arrived.drop_last() == work@.arrived),
{
    law_a_receive_goes_on_only_with_success(work@, read_view(read));
    if let Ok(Step::Done(received)) = step {
        if work@.work.at_file() && work@.names.len() > 0 {
            assert(received@.arrived.drop_last() =~= work@.arrived);
        }
    }
}

} // verus!
