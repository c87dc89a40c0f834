//! What a send and a session come to together: each message of the send handed
//! to the far end, and each answer handed back.

use vstd::prelude::*;

use crate::arrived::{origin_of, ArrivedView};
use crate::client::{
    chunks_of, connecting, law_a_connection_goes_on_only_with_success,
    law_chunks_are_cut_every_mebibyte, status_fault, writing, ClientView, ConnectingView, Stage, Step,
    StepView, WritingView, CHUNK,
};
use crate::error::{Fault, TransportError};
use crate::far_end::{
    connected_client, connects, law_a_client_is_connected, lemma_closes, lemma_next_id_is_free,
    lemma_no_options, lemma_opens, lemma_served_share, lemma_writes, presentable, ready,
    recognizes, serving, with_closed, with_open, with_written, FarEnd, Phase,
};
use crate::handles::OpenView;
use crate::message::{
    create_fields_in, created_in, file_id, id_at, law_close_request_reads_back,
    law_create_request_reads_back, law_write_request_reads_back, write_fields_in,
    write_request_body, FILE_OVERWRITE_IF,
};
use crate::ntlm::IdentityView;
use crate::session::{content, overwritten, refusal, EventView, SessionView, SHARE};
use crate::transfer::{
    kept_of, logoff_of, path_of, sending, taken_of, SendWorkView, Sending, SendingView,
    SmbTransportView, LOOPBACK_FILE,
};
use crate::utf16::{lemma_utf16_length, utf16};
use crate::wire;
use crate::wire::{read_view, u32_at, Message, MessageView};

verus! {

/// A send that has come to `step`, and the far end, after `turns` more messages
/// and answers: what became of the far end, and the message that logs off or
/// the failure the send ends in. `None` where it takes more turns.
#[verifier::opaque]
pub open spec fn sends(
    step: StepView<SendingView, MessageView>,
    far: FarEnd,
    turns: nat,
) -> Option<(FarEnd, Result<MessageView, Fault>)>
    decreases turns,
{
    match step {
        StepView::Done(logoff) => Some((far, Ok(logoff))),
        StepView::Ask(sending, request) => if turns == 0 {
            None
        } else {
            match far.answers(request) {
                None => None,
                Some(Err(fault)) => Some((far, Err(fault))),
                Some(Ok((after, answer))) => match sending.take(Some(answer)) {
                    Err(fault) => Some((after, Err(fault))),
                    Ok(next) => sends(next, after, (turns - 1) as nat),
                },
            }
        },
    }
}

/// All the bytes of `chunks`, in their order.
pub open spec fn joined(chunks: Seq<Seq<u8>>) -> Seq<u8>
    decreases chunks.len(),
{
    if chunks.len() == 0 {
        Seq::empty()
    } else {
        chunks[0] + joined(chunks.drop_first())
    }
}

/// The chunks a write is split into are the whole, in order; there is at least
/// one, none is over the ceiling, and each write of one fits in a message.
pub proof fn law_chunks_are_the_whole(bytes: Seq<u8>)
    ensures
        joined(chunks_of(bytes)) == bytes,
        chunks_of(bytes).len() > 0,
        forall|i: int|
            0 <= i < chunks_of(bytes).len() ==> (#[trigger] chunks_of(bytes)[i]).len() <= CHUNK,
        forall|i: int, client: ClientView, id: Seq<u8>, offset: u64|
            0 <= i < chunks_of(bytes).len() && id.len() == 16 ==> (#[trigger] client.request(
                wire::WRITE,
                write_request_body(id, offset, chunks_of(bytes)[i]),
            )).fits(),
    decreases bytes.len(),
{
    let chunks = chunks_of(bytes);
    reveal_with_fuel(joined, 2);
    if bytes.len() <= CHUNK {
        assert(chunks.drop_first() =~= Seq::empty());
        assert(bytes + Seq::<u8>::empty() =~= bytes);
    } else {
        let rest = bytes.skip(CHUNK as int);
        law_chunks_are_the_whole(rest);
        assert(chunks.drop_first() =~= chunks_of(rest));
        assert(bytes.take(CHUNK as int) + rest =~= bytes);
        assert forall|i: int| 0 <= i < chunks.len() implies (#[trigger] chunks[i]).len() <= CHUNK by {
            if i > 0 {
                assert(chunks[i] == chunks_of(rest)[i - 1]);
            }
        }
    }
    assert forall|i: int, client: ClientView, id: Seq<u8>, offset: u64|
        0 <= i < chunks.len() && id.len() == 16 implies (#[trigger] client.request(
        wire::WRITE,
        write_request_body(id, offset, chunks[i]),
    )).fits() by {
        law_write_request_reads_back(id, offset, chunks[i]);
    }
}

/// The far end once all of `chunks` are written to `id`, from `offset` on.
spec fn with_chunks(far: FarEnd, id: Seq<u8>, offset: u64, chunks: Seq<Seq<u8>>) -> FarEnd
    decreases chunks.len(),
{
    if chunks.len() == 0 {
        far
    } else {
        with_chunks(
            with_written(far, id, offset, chunks[0]),
            id,
            (offset + chunks[0].len()) as u64,
            chunks.drop_first(),
        )
    }
}

/// The reports of `chunks` being written to `name`.
pub open spec fn write_events(name: Seq<char>, chunks: Seq<Seq<u8>>) -> Seq<EventView> {
    Seq::new(chunks.len(), |i: int| EventView::Written(name, chunks[i].len()))
}

/// Chunks written one after the other are appended to the file.
proof fn lemma_chunks_append(far: FarEnd, id: Seq<u8>, offset: u64, chunks: Seq<Seq<u8>>)
    requires
        far.session.handles.dom().contains(id),
        content(far.session.files, far.session.handles[id].name).len() == offset,
        offset + joined(chunks).len() <= u64::MAX,
        chunks.len() > 0,
    ensures
        ({
            let session = far.session;
            let open = session.handles[id];
            with_chunks(far, id, offset, chunks) == (FarEnd {
                session: SessionView {
                    files: session.files.insert(
                        open.name,
                        content(session.files, open.name) + joined(chunks),
                    ),
                    handles: session.handles.insert(id, OpenView { written: true, ..open }),
                    ..session
                },
                events: far.events + write_events(open.name, chunks),
                ..far
            })
        }),
    decreases chunks.len(),
{
    let session = far.session;
    let open = session.handles[id];
    let name = open.name;
    let bytes = content(session.files, name);
    let rest = chunks.drop_first();
    let middle = with_written(far, id, offset, chunks[0]);
    let next = (offset + chunks[0].len()) as u64;
    reveal_with_fuel(joined, 2);
    reveal_with_fuel(with_chunks, 2);
    assert(overwritten(bytes, offset as nat, chunks[0]) =~= bytes + chunks[0]);
    assert(content(middle.session.files, name) =~= bytes + chunks[0]);
    if rest.len() == 0 {
        assert(chunks[0] + Seq::<u8>::empty() =~= chunks[0]);
        assert(write_events(name, chunks) =~= seq![EventView::Written(name, chunks[0].len())]);
        assert(far.events.push(EventView::Written(name, chunks[0].len())) =~= far.events
            + write_events(name, chunks));
    } else {
        lemma_chunks_append(middle, id, next, rest);
        let whole = with_chunks(middle, id, next, rest);
        assert(bytes + chunks[0] + joined(rest) =~= bytes + joined(chunks));
        assert(whole.session.files =~= session.files.insert(name, bytes + joined(chunks)));
        assert(whole.session.handles =~= session.handles.insert(
            id,
            OpenView { written: true, ..open },
        ));
        assert(whole.events =~= far.events + write_events(name, chunks));
    }
}

/// A send that is writing goes on until all its chunks are written.
proof fn lemma_sends_chunks(
    work: SendingView,
    far: FarEnd,
    client: ClientView,
    id: Seq<u8>,
    offset: u64,
    chunks: Seq<Seq<u8>>,
    turns: nat,
)
    requires
        far.phase is Serving,
        far.session.handles.dom().contains(id),
        id.len() == 16,
        chunks.len() > 0,
        forall|i: int| 0 <= i < chunks.len() ==> (#[trigger] chunks[i]).len() <= CHUNK,
        offset + joined(chunks).len() <= isize::MAX,
        client.next_message_id + chunks.len() < u64::MAX,
        turns >= chunks.len(),
    ensures
        ({
            let (writes, request) = writing(client, id, chunks, offset);
            let after = ClientView {
                next_message_id: (client.next_message_id + chunks.len()) as u64,
                ..client
            };
            sends(
                work.asks(SendWorkView::Writing(id, writes), request),
                far,
                turns,
            ) == sends(
                work.written(after, id),
                with_chunks(far, id, offset, chunks),
                (turns - chunks.len()) as nat,
            )
        }),
    decreases chunks.len(),
{
    let (writes, request) = writing(client, id, chunks, offset);
    let rest = chunks.drop_first();
    let next = (offset + chunks[0].len()) as u64;
    reveal_with_fuel(joined, 2);
    reveal_with_fuel(with_chunks, 2);
    let _ = lemma_writes(far, client, id, offset, chunks[0]);
    let middle = with_written(far, id, offset, chunks[0]);
    let step = work.asks(SendWorkView::Writing(id, writes), request);
    if rest.len() == 0 {
        assert(sends(step, far, turns) == sends(
            work.written(client.next(), id),
            middle,
            (turns - 1) as nat,
        )) by {
            reveal(sends);
        }
        assert(rest =~= Seq::empty());
    } else {
        let (more, other) = writing(client.next(), id, rest, next);
        assert(sends(step, far, turns) == sends(
            work.asks(SendWorkView::Writing(id, more), other),
            middle,
            (turns - 1) as nat,
        )) by {
            reveal(sends);
        }
        assert forall|i: int| 0 <= i < rest.len() implies (#[trigger] rest[i]).len() <= CHUNK by {
            assert(rest[i] == chunks[i + 1]);
        }
        lemma_sends_chunks(work, middle, client.next(), id, next, rest, (turns - 1) as nat);
    }
}

/// A send goes through connecting as the connection alone does.
proof fn lemma_sends_connect(
    work: SendingView,
    connection: ConnectingView,
    request: MessageView,
    far: FarEnd,
    turns: nat,
)
    requires
        connects(StepView::Ask(connection, request), far, turns) is Some,
    ensures
        ({
            let step = work.asks(SendWorkView::Connecting(connection), request);
            match connects(StepView::Ask(connection, request), far, turns) {
                Some((after, Ok(client), left)) => sends(step, far, turns) == sends(
                    work.connected(client),
                    after,
                    left,
                ),
                Some((after, Err(fault), _)) => sends(step, far, turns) == Some(
                    (after, Err::<MessageView, Fault>(fault)),
                ),
                None => false,
            }
        }),
    decreases turns,
{
    reveal_with_fuel(connects, 2);
    reveal_with_fuel(sends, 1);
    if let Some(Ok((after, answer))) = far.answers(request) {
        if let Ok(StepView::Ask(next, message)) = connection.take(Some(answer)) {
            lemma_sends_connect(work, next, message, after, (turns - 1) as nat);
        }
    }
}

proof fn lemma_chunk_count(bytes: Seq<u8>)
    ensures
        chunks_of(bytes).len() <= bytes.len() + 1,
    decreases bytes.len(),
{
    if bytes.len() > CHUNK {
        lemma_chunk_count(bytes.skip(CHUNK as int));
    }
}

/// The far end once `bytes` were sent to it as `name`.
pub open spec fn with_sent(far: FarEnd, name: Seq<char>, bytes: Seq<u8>) -> FarEnd {
    let arrived = ArrivedView {
        origin_uri: origin_of(far.session.peer, far.session.tree, name),
        bytes,
    };
    FarEnd {
        session: SessionView {
            files: far.session.files.insert(name, bytes),
            next_handle: (far.session.next_handle + 1) as u64,
            ..far.session
        },
        events: far.events + seq![EventView::Created(name)] + write_events(name, chunks_of(bytes))
            + seq![EventView::Committed(arrived)],
        ..far
    }
}

/// Creating a file, writing its chunks and closing it leaves exactly its bytes
/// under its name.
proof fn lemma_stores(far: FarEnd, name: Seq<char>, bytes: Seq<u8>)
    requires
        far.session.valid(),
        far.session.next_handle < u64::MAX,
        bytes.len() <= isize::MAX,
    ensures
        ({
            let id = file_id(far.session.next_handle);
            let open = with_open(far, name, FILE_OVERWRITE_IF, 0);
            with_closed(with_chunks(open, id, 0, chunks_of(bytes)), id) == with_sent(
                far,
                name,
                bytes,
            )
        }),
{
    let id = file_id(far.session.next_handle);
    let chunks = chunks_of(bytes);
    let open = with_open(far, name, FILE_OVERWRITE_IF, 0);
    lemma_no_options();
    lemma_next_id_is_free(far.session);
    law_chunks_are_the_whole(bytes);
    lemma_chunks_append(open, id, 0, chunks);
    let written = with_chunks(open, id, 0, chunks);
    let closed = with_closed(written, id);
    let sent = with_sent(far, name, bytes);
    assert(Seq::<u8>::empty() + bytes =~= bytes);
    assert(closed.session.files =~= sent.session.files);
    assert(closed.session.handles =~= sent.session.handles);
    assert(closed.events =~= sent.events);
}

proof fn lemma_sends_create(work: SendingView, far: FarEnd, client: ClientView, turns: nat)
    requires
        far.phase is Serving,
        far.session.valid(),
        far.session.next_handle < u64::MAX,
        client.next_message_id < u64::MAX,
        utf16(work.name).len() <= 0xFFFF,
        turns >= 1,
    ensures
        sends(work.connected(client), far, turns) == sends(
            work.created(client.next(), file_id(far.session.next_handle)),
            with_open(far, work.name, FILE_OVERWRITE_IF, 0),
            (turns - 1) as nat,
        ),
{
    reveal(sends);
    lemma_no_options();
    let answer = lemma_opens(far, client, work.name, FILE_OVERWRITE_IF, 0);
}

proof fn lemma_sends_close(
    work: SendingView,
    far: FarEnd,
    client: ClientView,
    id: Seq<u8>,
    turns: nat,
)
    requires
        far.phase is Serving,
        far.session.handles.dom().contains(id),
        id.len() == 16,
        client.next_message_id < u64::MAX,
        turns >= 1,
    ensures
        sends(work.written(client, id), far, turns) == Some(
            (with_closed(far, id), Ok::<MessageView, Fault>(logoff_of(client.next()))),
        ),
{
    reveal(sends);
    let answer = lemma_closes(far, client, id);
    let done = StepView::<SendingView, MessageView>::Done(logoff_of(client.next()));
    assert(sends(done, with_closed(far, id), (turns - 1) as nat) == Some(
        (with_closed(far, id), Ok::<MessageView, Fault>(logoff_of(client.next()))),
    )) by {
        reveal(sends);
    }
}

proof fn lemma_sends_file(work: SendingView, far: FarEnd, client: ClientView, turns: nat)
    requires
        far.phase is Serving,
        far.session.valid(),
        far.session.next_handle < u64::MAX,
        client.next_message_id + chunks_of(work.bytes).len() + 1 < u64::MAX,
        utf16(work.name).len() <= 0xFFFF,
        work.bytes.len() <= isize::MAX,
        turns >= chunks_of(work.bytes).len() + 2,
    ensures
        ({
            let after = ClientView {
                next_message_id: (client.next_message_id + chunks_of(work.bytes).len() + 2) as u64,
                ..client
            };
            sends(work.connected(client), far, turns) == Some(
                (
                    with_sent(far, work.name, work.bytes),
                    Ok::<MessageView, Fault>(logoff_of(after)),
                ),
            )
        }),
{
    let chunks = chunks_of(work.bytes);
    let id = file_id(far.session.next_handle);
    assert(id.len() == 16);
    let open = with_open(far, work.name, FILE_OVERWRITE_IF, 0);
    lemma_sends_create(work, far, client, turns);
    law_chunks_are_the_whole(work.bytes);
    lemma_sends_chunks(work, open, client.next(), id, 0, chunks, (turns - 1) as nat);
    lemma_chunks_append(open, id, 0, chunks);
    let after = ClientView {
        next_message_id: (client.next_message_id + 1 + chunks.len()) as u64,
        ..client
    };
    let written = with_chunks(open, id, 0, chunks);
    lemma_sends_close(work, written, after, id, (turns - 1 - chunks.len()) as nat);
    lemma_stores(far, work.name, work.bytes);
}

/// A Stream that is sent arrives whole: the far end reports exactly its bytes,
/// with where they came from, holds them under its name, and leaves every other
/// file as it was.
pub proof fn law_a_sent_file_arrives(
    identity: IdentityView,
    server: Seq<char>,
    name: Seq<char>,
    bytes: Seq<u8>,
    far: FarEnd,
    turns: nat,
)
    requires
        ready(far),
        recognizes(far, identity),
        far.session.next_handle < u64::MAX,
        presentable(identity, server, SHARE@),
        utf16(name).len() <= 0xFFFF,
        bytes.len() <= isize::MAX,
        turns >= chunks_of(bytes).len() + 6,
    ensures
        ({
            let (start, request) = sending(identity, server, SHARE@, name, bytes);
            let client = ClientView {
                session_id: far.session.id,
                tree_id: 1,
                next_message_id: (chunks_of(bytes).len() + 6) as u64,
            };
            sends(StepView::Ask(start, request), far, turns) == Some(
                (
                    with_sent(serving(far), name, bytes),
                    Ok::<MessageView, Fault>(logoff_of(client)),
                ),
            )
        }),
{
    let (start, _) = sending(identity, server, SHARE@, name, bytes);
    lemma_served_share();
    let (connection, asked) = connecting(path_of(server, SHARE@), identity);
    law_a_client_is_connected(identity, server, SHARE@, far, turns);
    lemma_sends_connect(start, connection, asked, far, turns);
    lemma_chunk_count(bytes);
    lemma_sends_file(
        start,
        serving(far),
        connected_client(far.session.id),
        (turns - 4) as nat,
    );
}

/// A send to another share is refused: the client is told that there is no such
/// share, the session ends naming the share that was asked for, and no file is
/// changed.
pub proof fn law_another_share_is_refused(
    identity: IdentityView,
    server: Seq<char>,
    share: Seq<char>,
    name: Seq<char>,
    bytes: Seq<u8>,
    far: FarEnd,
    turns: nat,
)
    requires
        ready(far),
        recognizes(far, identity),
        presentable(identity, server, share),
        !share.contains('\\'),
        share != SHARE@,
        turns >= 4,
    ensures
        ({
            let (start, request) = sending(identity, server, share, name, bytes);
            sends(StepView::Ask(start, request), far, turns) == Some(
                (
                    FarEnd { phase: Phase::Refused(refusal(share)), ..far },
                    Err::<MessageView, Fault>(
                        status_fault("the server answered"@, wire::STATUS_BAD_NETWORK_NAME),
                    ),
                ),
            )
        }),
{
    let (start, _) = sending(identity, server, share, name, bytes);
    let (connection, asked) = connecting(path_of(server, share), identity);
    law_a_client_is_connected(identity, server, share, far, turns);
    lemma_sends_connect(start, connection, asked, far, turns);
}

proof fn lemma_writes_keep_nothing(name: Seq<char>, chunks: Seq<Seq<u8>>, upto: nat)
    requires
        upto <= chunks.len(),
    ensures
        kept_of(seq![EventView::Created(name)] + write_events(name, chunks).take(upto as int))
            is None,
    decreases upto,
{
    let before = seq![EventView::Created(name)];
    let events = before + write_events(name, chunks).take(upto as int);
    if upto == 0 {
        assert(events =~= before);
        assert(events.drop_last() =~= Seq::empty());
        reveal_with_fuel(kept_of, 2);
    } else {
        lemma_writes_keep_nothing(name, chunks, (upto - 1) as nat);
        assert(events.drop_last() =~= before + write_events(name, chunks).take(upto - 1));
        assert(events.last() == EventView::Written(name, chunks[upto - 1].len()));
    }
}

/// What the near end of a loopback pair sends, its far end takes: the target is
/// the probe file on the served share, and what is taken is exactly the payload,
/// with the peer and the probe file as its origin.
pub proof fn law_the_loopback_takes_what_was_sent(
    near: SmbTransportView,
    payload: Seq<u8>,
    far: FarEnd,
    turns: nat,
)
    requires
        near.share == SHARE@,
        presentable(near.identity, near.server, SHARE@),
        ready(far),
        recognizes(far, near.identity),
        far.session.next_handle < u64::MAX,
        far.events.len() == 0,
        payload.len() <= isize::MAX,
        turns >= chunks_of(payload).len() + 6,
    ensures
        near.resolve(LOOPBACK_FILE@, None) == Ok::<(Seq<char>, Seq<char>, Seq<char>), Fault>(
            (near.server, SHARE@, LOOPBACK_FILE@),
        ),
        ({
            let (start, request) = sending(
                near.identity,
                near.server,
                SHARE@,
                LOOPBACK_FILE@,
                payload,
            );
            let uri = "smb://"@ + far.session.peer + "/xmip/probe.bin"@;
            sends(StepView::Ask(start, request), far, turns) matches Some((after, Ok(_)))
                && taken_of(kept_of(after.events)) == Ok::<ArrivedView, Fault>(
                ArrivedView { origin_uri: uri, bytes: payload },
            )
        }),
        "127.0.0.1:"@.is_prefix_of(far.session.peer) ==> "smb://127.0.0.1:"@.is_prefix_of(
            "smb://"@ + far.session.peer + "/xmip/probe.bin"@,
        ),
{
    let name = LOOPBACK_FILE@;
    reveal_strlit("probe.bin");
    reveal_strlit("xmip");
    reveal_strlit("/");
    reveal_strlit("/xmip/probe.bin");
    reveal_strlit("smb://");
    reveal_strlit("127.0.0.1:");
    reveal_strlit("smb://127.0.0.1:");
    assert(utf16(name).len() <= 0xFFFF) by {
        lemma_utf16_length(name);
    }
    law_a_sent_file_arrives(near.identity, near.server, name, payload, far, turns);
    let peer = far.session.peer;
    let uri = "smb://"@ + peer + "/xmip/probe.bin"@;
    assert(origin_of(peer, SHARE@, name) =~= uri);
    let arrived = ArrivedView { origin_uri: uri, bytes: payload };
    let chunks = chunks_of(payload);
    let events = with_sent(serving(far), name, payload).events;
    let before = seq![EventView::Created(name)] + write_events(name, chunks);
    assert(write_events(name, chunks).take(chunks.len() as int) =~= write_events(name, chunks));
    lemma_writes_keep_nothing(name, chunks, chunks.len());
    assert(events =~= before.push(EventView::Committed(arrived)));
    assert(events.drop_last() =~= before);
    if "127.0.0.1:"@.is_prefix_of(peer) {
        assert(uri.subrange(0, 16) =~= "smb://"@ + peer.subrange(0, 10));
        assert("smb://127.0.0.1:"@ =~= "smb://"@ + "127.0.0.1:"@);
    }
}

/// The messages of a send are numbered one by one: each carries the id after
/// that of the one before it.
pub proof fn law_sends_are_numbered(work: SendingView, read: Option<MessageView>)
    ensures
        work.take(read) matches Ok(StepView::Ask(next, request)) ==> request.message_id
            == work.work.client().next_message_id && next.work.client().next_message_id == (
        work.work.client().next_message_id + 1) as u64,
        work.take(read) matches Ok(StepView::Done(logoff)) ==> logoff.message_id
            == work.work.client().next_message_id,
{
}

/// A send goes on only where the server did not refuse it: each message is sent
/// once what was asked before was answered with a success, the first session
/// setup with a challenge. It goes from connecting to creating the file, writing
/// it and closing it, and is over only once the close was answered.
pub proof fn law_a_send_goes_on_only_with_success(work: SendingView, read: Option<MessageView>)
    requires
        0 < work.work.client().next_message_id < u64::MAX,
    ensures
        work.take(read) is Ok ==> {
            &&& read matches Some(answer)
            &&& answer.message_id + 1 == work.work.client().next_message_id
            &&& answer.status == match work.work {
                SendWorkView::Connecting(connecting) => if connecting.stage == Stage::SettingUp {
                    0xC000_0016u32
                } else {
                    0u32
                },
                _ => 0u32,
            }
        },
        match work.take(read) {
            Ok(StepView::Ask(next, _)) => {
                &&& next.name == work.name
                &&& next.bytes == work.bytes
                &&& match work.work {
                    SendWorkView::Connecting(connecting) => if connecting.stage
                        == Stage::TreeConnecting {
                        next.work is Creating
                    } else {
                        next.work is Connecting
                    },
                    SendWorkView::Creating(_) => next.work is Writing,
                    SendWorkView::Writing(_, _) => next.work is Writing || next.work is Closing,
                    SendWorkView::Closing(_) => false,
                }
            },
            Ok(StepView::Done(logoff)) => {
                &&& work.work is Closing
                &&& logoff.command == 2
                &&& logoff.session_id == work.work.client().session_id
            },
            Err(fault) => match read {
                Some(answer) => !(work.work is Connecting) && answer.message_id + 1
                    == work.work.client().next_message_id && answer.status != 0 ==> fault
                    == status_fault("the server answered"@, answer.status),
                None => !fault.retryable,
            },
        },
{
    if let SendWorkView::Connecting(connecting) = work.work {
        law_a_connection_goes_on_only_with_success(connecting, read);
    }
}

/// Once connected, a send creates the file under the name that was given,
/// replacing what was there, on the tree that was connected.
pub proof fn law_a_send_creates_its_file(
    work: SendingView,
    connection: ConnectingView,
    read: Option<MessageView>,
)
    requires
        work.work == SendWorkView::Connecting(connection),
        connection.stage == Stage::TreeConnecting,
        0 < connection.client.next_message_id < u64::MAX,
        utf16(work.name).len() <= 0xFFFF,
    ensures
        work.take(read) matches Ok(step) ==> {
            &&& step matches StepView::Ask(next, request)
            &&& request.command == 5
            &&& request.tree_id == read->0.tree_id
            &&& request.session_id == connection.client.session_id
            &&& create_fields_in(request.body) == Ok::<(Seq<char>, u32, u32), Fault>(
                (work.name, 5, 0),
            )
        },
{
    law_a_connection_goes_on_only_with_success(connection, read);
    law_create_request_reads_back(work.name, FILE_OVERWRITE_IF, 0);
}

/// Once the file is created, its bytes are written to the id that was handed
/// out, all of them and in their order, from the first on.
pub proof fn law_a_send_writes_its_bytes(
    work: SendingView,
    client: ClientView,
    read: Option<MessageView>,
)
    requires
        work.work == SendWorkView::Creating(client),
        0 < client.next_message_id < u64::MAX,
    ensures
        work.take(read) matches Ok(step) ==> {
            &&& step matches StepView::Ask(next, request)
            &&& created_in(read->0.body) matches Ok((id, _))
            &&& next.work matches SendWorkView::Writing(to, writes)
            &&& to == id
            &&& writes.id == id
            &&& writes.offset == 0
            &&& joined(writes.chunks) == work.bytes
            &&& request.command == 9
            &&& write_fields_in(request.body) == Ok::<(Seq<u8>, u64, Seq<u8>), Fault>(
                (
                    id,
                    0,
                    if work.bytes.len() < 0x10_0000 {
                        work.bytes
                    } else {
                        work.bytes.take(0x10_0000)
                    },
                ),
            )
        },
{
    law_chunks_are_the_whole(work.bytes);
    law_chunks_are_cut_every_mebibyte(work.bytes);
    let chunks = chunks_of(work.bytes);
    let first = chunks[0];
    if chunks.len() == 1 {
        assert(first =~= work.bytes);
        if work.bytes.len() == 0x10_0000 {
            assert(work.bytes.take(0x10_0000) =~= work.bytes);
        }
    } else {
        assert(first =~= work.bytes.take(0x10_0000));
    }
    if let Ok(id) = client.handle(read) {
        law_write_request_reads_back(id, 0, first);
    }
}

/// The file is closed only once its last chunk was written whole, and it is the
/// one that was written that is closed.
pub proof fn law_a_send_closes_what_it_wrote(
    work: SendingView,
    id: Seq<u8>,
    writes: WritingView,
    read: Option<MessageView>,
)
    requires
        work.work == SendWorkView::Writing(id, writes),
        0 < writes.client.next_message_id < u64::MAX,
        writes.chunks.len() > 0,
        id.len() == 16,
    ensures
        work.take(read) matches Ok(step) ==> {
            &&& u32_at(read->0.body, 4) == writes.chunks[0].len()
            &&& step matches StepView::Ask(next, request)
            &&& match next.work {
                SendWorkView::Writing(to, rest) => {
                    &&& to == id
                    &&& rest.chunks == writes.chunks.skip(1)
                    &&& request.command == 9
                },
                SendWorkView::Closing(_) => {
                    &&& writes.chunks.len() == 1
                    &&& request.command == 6
                    &&& id_at(request.body, 8) == Ok::<Seq<u8>, Fault>(id)
                },
                _ => false,
            }
        },
{
    law_close_request_reads_back(id);
    assert(writes.chunks.skip(1) =~= writes.chunks.drop_first());
}

/// Whatever a server answers, a send that goes on or is over was not refused: the
/// answer was to its last message, with a success, or with a challenge while
/// connecting.
pub proof fn law_a_refused_send_fails<'a>(
    work: Sending<'a>,
    read: Option<Message>,
    step: Result<Step<Sending<'a>, Message>, TransportError>,
)
    requires
        call_ensures(Sending::<'a>::take, (work, read), step),
        0 < work@.work.client().next_message_id < u64::MAX,
    ensures
        step is Ok ==> {
            &&& read matches Some(answer)
            &&& answer.message_id + 1 == work@.work.client().next_message_id
            &&& answer.status == 0 || answer.status == 0xC000_0016 && work@.work is Connecting
        },
        step matches Ok(Step::Done(logoff)) ==> logoff.command == 2 && work@.work is Closing,
{
    law_a_send_goes_on_only_with_success(work@, read_view(read));
}

} // verus!
