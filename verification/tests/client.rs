use smb::client::{split_chunks, status_error, Client, Step, CHUNK};
use smb::message;
use smb::message::FileId;
use smb::ntlm;
use smb::ntlm::Identity;
use smb::ntlmssp;
use smb::wire;
use smb::wire::Message;

#[test]
fn a_status_names_its_failure_and_a_transient_is_retryable() {
    let error = status_error("opening", wire::STATUS_OBJECT_NAME_NOT_FOUND);
    assert!(error.message.contains("no such file"), "{}", error.message);
    assert!(!error.retryable);
    assert!(status_error("x", 0xC000_0203).retryable, "a network error");
    assert_eq!(split_chunks(b"").len(), 1, "empty is one write");
    assert_eq!(split_chunks(&vec![0u8; CHUNK + 1]).len(), 2);
}

#[test]
fn a_status_error_spells_its_status_out() {
    assert_eq!(
        status_error("the logon", wire::STATUS_LOGON_FAILURE).message,
        "the logon: the logon failed (0xc000006d)"
    );
    assert_eq!(status_error("x", 0).message, "x: success (0x00000000)");
    assert!(status_error("x", 0x8000_0011).retryable);
    assert!(status_error("x", 0xC000_0235).retryable);
    assert!(!status_error("x", 0xC000_0236).retryable);
}

#[test]
fn chunks_are_the_whole_in_order() {
    let bytes: Vec<u8> = (0..(2 * CHUNK as u32 + 3)).map(|n| (n % 251) as u8).collect();
    let chunks = split_chunks(&bytes);
    assert_eq!(chunks.len(), 3);
    assert_eq!(chunks[0].len(), CHUNK);
    assert_eq!(chunks[1].len(), CHUNK);
    assert_eq!(chunks[2].len(), 3);
    assert_eq!(chunks.concat(), bytes);
    assert_eq!(split_chunks(&bytes[..CHUNK]).len(), 1);
    assert_eq!(split_chunks(b"")[0], b"");
}

fn identity() -> Identity {
    Identity {
        domain: "WORKGROUP".to_string(),
        user: "xmip".to_string(),
        workstation: "XMIP".to_string(),
    }
}

/// A Challenge with a nonce, no target and no target information.
fn challenge() -> Vec<u8> {
    let mut token = b"NTLMSSP\0".to_vec();
    token.extend([2, 0, 0, 0, 0, 0, 0, 0, 48, 0, 0, 0, 1, 2, 0, 0]);
    token.extend([1, 2, 3, 4, 5, 6, 7, 8]);
    token.extend([0; 8]);
    token.extend([0, 0, 0, 0, 48, 0, 0, 0]);
    token
}

/// What the security buffer at `at` of `token` stands for, as text.
fn name_at(token: &[u8], at: usize) -> String {
    let number = |at: usize| usize::from(token[at]) + 256 * usize::from(token[at + 1]);
    let (begin, length) = (number(at + 4), number(at));
    assert_eq!(number(at + 2), length);
    assert_eq!(number(at + 6), 0);
    smb::utf16::decode_lossy(&token[begin..begin + length])
}

fn challenge_to(request: &Message) -> Message {
    let token = challenge();
    let mut answer = request.respond(
        wire::STATUS_MORE_PROCESSING,
        message::session_setup(true, &token),
    );
    answer.session_id = 77;
    answer
}

fn success_to(request: &Message, body: Vec<u8>) -> Message {
    request.respond(wire::STATUS_SUCCESS, body)
}

/// A client that has set up its session and connected its tree.
fn connected(identity: &Identity) -> Client {
    let (connecting, request) = Client::connect(r"\\host\xmip".to_string(), identity);
    assert_eq!(request.command, wire::NEGOTIATE);
    assert_eq!(request.message_id, 0);
    let answer = success_to(&request, message::negotiate_response());
    let Ok(Step::Ask(connecting, request)) = connecting.take(Some(answer)) else {
        panic!("negotiated");
    };
    assert_eq!(request.command, wire::SESSION_SETUP);
    let token = message::session_token(&request.body).expect("token");
    assert_eq!(ntlm::message_type(token).expect("type"), ntlm::NEGOTIATE);
    assert!(token.len() >= 32);
    assert_eq!(token[12..16], [0x01, 0x02, 0, 0]);
    let answer = challenge_to(&request);
    let Ok(Step::Ask(connecting, request)) = connecting.take(Some(answer)) else {
        panic!("challenged");
    };
    assert_eq!(request.session_id, 77);
    let token = message::session_token(&request.body).expect("token");
    assert_eq!(ntlm::message_type(token).expect("type"), ntlm::AUTHENTICATE);
    assert_eq!(name_at(token, 28), identity.domain);
    assert_eq!(name_at(token, 36), identity.user);
    assert_eq!(name_at(token, 44), identity.workstation);
    let answer = success_to(&request, message::session_setup(true, &[]));
    let Ok(Step::Ask(connecting, request)) = connecting.take(Some(answer)) else {
        panic!("logged on");
    };
    assert_eq!(request.command, wire::TREE_CONNECT);
    assert_eq!(request.message_id, 3);
    assert_eq!(
        message::tree_connect_path(&request.body).expect("path"),
        r"\\host\xmip"
    );
    let mut answer = success_to(&request, message::tree_connect_response());
    answer.tree_id = 5;
    match connecting.take(Some(answer)) {
        Ok(Step::Done(client)) => client,
        _ => panic!("connected"),
    }
}

#[test]
fn a_connection_carries_the_ids_it_was_given() {
    let identity = identity();
    let mut client = connected(&identity);
    assert!(client.can_ask());
    let request = client.open("a.edi");
    assert_eq!(request.command, wire::CREATE);
    assert_eq!(request.message_id, 4);
    assert_eq!(request.session_id, 77);
    assert_eq!(request.tree_id, 5);
    assert_eq!(
        message::create_fields(&request.body).expect("create"),
        ("a.edi".to_string(), message::FILE_OPEN, 0)
    );
    let body = message::create_response(FileId::of(9), 12);
    assert_eq!(
        client.opened(Some(success_to(&request, body))).expect("opened"),
        (FileId::of(9), 12)
    );
    let request = client.create("b.edi");
    assert_eq!(
        message::create_fields(&request.body).expect("create"),
        ("b.edi".to_string(), message::FILE_OVERWRITE_IF, 0)
    );
    let request = client.open_to_delete("c.edi");
    assert_eq!(
        message::create_fields(&request.body).expect("create"),
        (
            "c.edi".to_string(),
            message::FILE_OPEN,
            message::FILE_DELETE_ON_CLOSE
        )
    );
    let request = client.close(FileId::of(9));
    assert_eq!(request.message_id, 7);
    assert_eq!(message::close_id(&request.body).expect("id"), FileId::of(9));
    assert!(client
        .closed(Some(success_to(&request, message::close_response())))
        .is_ok());
    let request = client.logoff();
    assert_eq!(request.command, wire::LOGOFF);
    assert_eq!(request.message_id, 8);
    assert_eq!(request.session_id, 77);
    assert_eq!(request.tree_id, 0);
    assert_eq!(request.body, [4, 0, 0, 0]);
}

#[test]
fn a_connection_that_is_not_challenged_or_refused_fails() {
    let identity = identity();
    let (connecting, _) = Client::connect(r"\\h\s".to_string(), &identity);
    let error = connecting.take(None).err().expect("closed");
    assert_eq!(error.message, "the peer closed the connection");

    let (connecting, request) = Client::connect(r"\\h\s".to_string(), &identity);
    let mut other = success_to(&request, Vec::new());
    other.message_id = 9;
    let error = connecting.take(Some(other)).err().expect("another");
    assert_eq!(error.message, "an answer to another message");

    let (connecting, request) = Client::connect(r"\\h\s".to_string(), &identity);
    let answer = success_to(&request, message::negotiate_response());
    let Ok(Step::Ask(connecting, request)) = connecting.take(Some(answer)) else {
        panic!("negotiated");
    };
    let answer = request.respond(wire::STATUS_LOGON_FAILURE, Vec::new());
    let error = connecting.take(Some(answer)).err().expect("refused");
    assert_eq!(
        error.message,
        "the session setup: the logon failed (0xc000006d)"
    );

    let (connecting, request) = Client::connect(r"\\h\s".to_string(), &identity);
    let answer = success_to(&request, message::negotiate_response());
    let Ok(Step::Ask(connecting, request)) = connecting.take(Some(answer)) else {
        panic!("negotiated");
    };
    let answer = request.respond(
        wire::STATUS_MORE_PROCESSING,
        message::session_setup(true, &ntlmssp::negotiate_message()),
    );
    let error = connecting.take(Some(answer)).err().expect("no challenge");
    assert_eq!(error.message, "not an NTLM challenge");

    let (connecting, request) = Client::connect(r"\\h\s".to_string(), &identity);
    let answer = success_to(&request, message::negotiate_response());
    let Ok(Step::Ask(connecting, request)) = connecting.take(Some(answer)) else {
        panic!("negotiated");
    };
    let answer = request.respond(
        wire::STATUS_MORE_PROCESSING,
        message::session_setup(true, &challenge()[..31]),
    );
    let error = connecting.take(Some(answer)).err().expect("cut short");
    assert_eq!(error.message, "a challenge without its nonce");
}

#[test]
fn a_short_write_is_a_failure() {
    let identity = identity();
    let client = connected(&identity);
    let (writing, request) = client.write_all(FileId::of(3), b"four");
    assert_eq!(
        message::write_fields(&request.body).expect("write"),
        (FileId::of(3), 0, b"four".to_vec())
    );
    let answer = success_to(&request, message::write_response(3));
    let error = writing.take(Some(answer)).err().expect("short");
    assert_eq!(error.message, "the server wrote 3 of 4 bytes");
    assert!(!error.retryable);
}

#[test]
fn a_write_of_two_chunks_goes_on_where_the_first_ended() {
    let identity = identity();
    let client = connected(&identity);
    let bytes = vec![7u8; CHUNK + 2];
    let (writing, request) = client.write_all(FileId::of(3), &bytes);
    let count = u32::try_from(CHUNK).expect("chunk");
    let answer = success_to(&request, message::write_response(count));
    let Ok(Step::Ask(writing, request)) = writing.take(Some(answer)) else {
        panic!("the second chunk");
    };
    assert_eq!(
        message::write_fields(&request.body).expect("write"),
        (FileId::of(3), CHUNK as u64, vec![7, 7])
    );
    let answer = success_to(&request, message::write_response(2));
    assert!(matches!(writing.take(Some(answer)), Ok(Step::Done(_))));
}

#[test]
fn a_read_ends_with_its_length_an_empty_chunk_or_a_refusal() {
    let identity = identity();
    match connected(&identity).read_all(FileId::of(3), 0) {
        Step::Done((_, bytes)) => assert!(bytes.is_empty()),
        Step::Ask(_, _) => panic!("nothing to read"),
    }
    let Step::Ask(reading, request) = connected(&identity).read_all(FileId::of(3), 5) else {
        panic!("five bytes");
    };
    assert_eq!(
        message::read_fields(&request.body).expect("read"),
        (FileId::of(3), 0, 5)
    );
    let answer = success_to(&request, message::read_response(b"abc"));
    let Ok(Step::Ask(reading, request)) = reading.take(Some(answer)) else {
        panic!("two more");
    };
    assert_eq!(
        message::read_fields(&request.body).expect("read"),
        (FileId::of(3), 3, 2)
    );
    let answer = success_to(&request, message::read_response(b""));
    match reading.take(Some(answer)) {
        Ok(Step::Done((_, bytes))) => assert_eq!(bytes, b"abc"),
        _ => panic!("cut short"),
    }
    let Step::Ask(reading, request) = connected(&identity).read_all(FileId::of(3), 5) else {
        panic!("five bytes");
    };
    let answer = request.respond(wire::STATUS_END_OF_FILE, message::read_response(b""));
    let error = reading.take(Some(answer)).err().expect("past the end");
    assert_eq!(
        error.message,
        "the server answered: the end of the file (0xc0000011)"
    );
}

#[test]
fn a_listing_leaves_the_directories_out() {
    let identity = identity();
    let (listing, request) = connected(&identity).list("*");
    assert_eq!(
        message::create_fields(&request.body).expect("root"),
        (String::new(), message::FILE_OPEN, message::FILE_DIRECTORY)
    );
    let answer = success_to(&request, message::create_response(FileId::of(1), 0));
    let Ok(Step::Ask(listing, request)) = listing.take(Some(answer)) else {
        panic!("opened");
    };
    assert_eq!(request.command, wire::QUERY_DIRECTORY);
    let names = [".", "..", "a.edi"].map(str::to_string);
    let answer = success_to(&request, smb::directory::response(&names));
    let Ok(Step::Ask(listing, request)) = listing.take(Some(answer)) else {
        panic!("queried");
    };
    assert_eq!(message::close_id(&request.body).expect("id"), FileId::of(1));
    let answer = success_to(&request, message::close_response());
    match listing.take(Some(answer)) {
        Ok(Step::Done((_, listed))) => assert_eq!(listed.names, ["a.edi"]),
        _ => panic!("listed"),
    }
}
