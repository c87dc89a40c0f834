use smb::accepting::{Accept, Accepting};
use smb::arrived::Arrived;
use smb::directory;
use smb::message;
use smb::message::{FileId, FILE_DELETE_ON_CLOSE, FILE_DIRECTORY, FILE_OPEN, FILE_OVERWRITE_IF};
use smb::session::{fresh_nonce, Event, Session, Turn};
use smb::share::Files;
use smb::wire;
use smb::wire::Message;

#[test]
fn a_nonce_is_eight_bytes_and_fresh() {
    let first = fresh_nonce(Some(1_700_000_000_000_000_000), 1, 445);
    assert_eq!(first.len(), 8);
    assert_ne!(first, fresh_nonce(Some(1_700_000_000_000_000_000), 2, 445));
    assert_ne!(first, fresh_nonce(Some(1_700_000_000_000_000_001), 1, 445));
    assert_ne!(first, fresh_nonce(Some(1_700_000_000_000_000_000), 1, 446));
}

#[test]
fn a_nonce_mixes_the_clock_the_counter_and_the_port() {
    assert_eq!(fresh_nonce(None, 0, 0x01BD), [0xBD, 0x01, 0, 0, 0, 0, 0, 0]);
    assert_eq!(fresh_nonce(Some(5), 0, 0), [5, 0, 0, 0, 0, 0, 0, 0]);
    assert_eq!(fresh_nonce(None, 1, 0), [0, 0, 0, 1, 0, 0, 0, 0]);
    assert_eq!(
        fresh_nonce(None, 0xFF_0504_0302_01, 0),
        [0, 0, 0, 1, 2, 3, 4, 5]
    );
    assert_eq!(
        fresh_nonce(Some(u128::MAX), 0, 0),
        [0xFF, 0xFF, 0xFF, 0, 0, 0, 0, 0]
    );
}

#[test]
fn sessions_never_share_a_nonce() {
    let clocks = [0, 0x2_0000, 0x6_0000, 1_700_000_000_000_000_000];
    let mut nonces = Vec::new();
    for (session, nanos) in (1..).zip(clocks.into_iter().cycle()).take(64) {
        let nonce = fresh_nonce(Some(nanos), session, 445);
        assert!(!nonces.contains(&nonce));
        nonces.push(nonce);
    }
    assert_ne!(
        fresh_nonce(Some(0), 1, 445),
        fresh_nonce(Some(0x6_0000), 2, 445)
    );
}

fn session_setup(id: u64, token: &[u8]) -> Option<Message> {
    let body = message::session_setup(false, token);
    Some(Message::request(wire::SESSION_SETUP, id, body))
}

/// A client that has logged on, its tree connect due.
fn logged_on() -> Accepting {
    let accepting = Session::accept("peer:1".to_string(), 9);
    let request = Message::request(wire::NEGOTIATE, 0, message::negotiate_request());
    let Ok(Accept::Answer(accepting, answer)) = accepting.take(Some(request)) else {
        panic!("negotiated");
    };
    assert_eq!(answer.body, message::negotiate_response());
    assert_eq!(answer.session_id, 0);
    let Ok(Accept::Negotiate(accepting, token)) = accepting.take(session_setup(1, b"first")) else {
        panic!("set up");
    };
    assert_eq!(token, b"first");
    let (accepting, answer) = accepting.offer(b"offer");
    assert_eq!(answer.status, wire::STATUS_MORE_PROCESSING);
    assert_eq!(answer.message_id, 1);
    assert_eq!(answer.session_id, 9);
    assert_eq!(
        message::session_token(&answer.body).expect("token"),
        b"offer"
    );
    let Ok(Accept::Authenticate(accepting, token)) = accepting.take(session_setup(2, b"second"))
    else {
        panic!("authenticated");
    };
    assert_eq!(token, b"second");
    let (accepting, answer) = accepting.confirm(Ok(())).expect("logged on");
    assert_eq!(answer.status, wire::STATUS_SUCCESS);
    assert_eq!(answer.message_id, 2);
    assert_eq!(answer.body, message::session_setup(true, &[]));
    accepting
}

fn tree_connect(path: &str) -> Option<Message> {
    let body = message::tree_connect_request(path);
    Some(Message::request(wire::TREE_CONNECT, 3, body))
}

/// A session that a client is connected to, over `files`.
fn serving(files: Files) -> Session {
    let Ok(Accept::Connected(session, answer)) = logged_on().take(tree_connect(r"\\host\xmip"))
    else {
        panic!("connected");
    };
    assert_eq!(answer.tree_id, 1);
    assert_eq!(answer.status, wire::STATUS_SUCCESS);
    assert_eq!(answer.body, message::tree_connect_response());
    assert_eq!(session.tree(), "xmip");
    assert!(session.files().is_empty());
    session.with_files(files)
}

fn no_files() -> Files {
    Files::new()
}

/// What a session answers to one request, and what it reports then.
fn ask(session: &mut Session, command: u16, body: Vec<u8>) -> (Message, Option<Event>) {
    let mut request = Message::request(command, 20, body);
    request.tree_id = 6;
    assert!(session.admits(&request));
    match session.next_event(Some(request)) {
        Ok(Turn::Served(reply)) => {
            assert_eq!(reply.answer.command, command);
            assert_eq!(reply.answer.message_id, 20);
            assert_eq!(reply.answer.tree_id, 6);
            assert_eq!(reply.answer.session_id, 9);
            assert!(reply.answer.is_response());
            let event = session.settle(reply.after);
            (reply.answer, event)
        }
        _ => panic!("served"),
    }
}

#[test]
fn a_handshake_in_another_order_is_refused() {
    let accepting = Session::accept("peer:1".to_string(), 9);
    assert_eq!(
        accepting.take(None).err().expect("closed").message,
        "the peer closed the connection"
    );
    let accepting = Session::accept("peer:1".to_string(), 9);
    let early = Message::request(wire::CREATE, 1, Vec::new());
    assert_eq!(
        accepting.take(Some(early)).err().expect("early").message,
        "command 0x0005 where 0x0000 was due"
    );
    assert_eq!(
        logged_on()
            .take(session_setup(3, b"again"))
            .err()
            .expect("again")
            .message,
        "command 0x0001 where 0x0003 was due"
    );
}

#[test]
fn a_challenge_offers_what_was_asked_for_and_is_known() {
    assert_eq!(Session::offered(Ok(0xFFFF_FFFF)).expect("flags"), 0x201);
    assert_eq!(Session::offered(Ok(0x0000_0203)).expect("flags"), 0x201);
    assert_eq!(Session::offered(Ok(0x0000_0002)).expect("flags"), 0);
    assert_eq!(
        Session::offered(Err("unreadable".to_string()))
            .expect_err("flags")
            .message,
        "unreadable"
    );
}

#[test]
fn an_identity_that_cannot_be_read_is_refused() {
    let accepting = Session::accept("peer:1".to_string(), 9);
    let request = Message::request(wire::NEGOTIATE, 0, message::negotiate_request());
    let Ok(Accept::Answer(accepting, _)) = accepting.take(Some(request)) else {
        panic!("negotiated");
    };
    let Ok(Accept::Negotiate(accepting, _)) = accepting.take(session_setup(1, b"first")) else {
        panic!("set up");
    };
    let (accepting, _) = accepting.offer(b"offer");
    let Ok(Accept::Authenticate(accepting, _)) = accepting.take(session_setup(2, b"second")) else {
        panic!("authenticated");
    };
    let error = accepting.confirm(Err("cut short".to_string())).err();
    assert_eq!(error.expect("refused").message, "cut short");
}

#[test]
fn another_share_is_answered_and_refused() {
    let Ok(Accept::Refused(answer, refusal)) = logged_on().take(tree_connect("other")) else {
        panic!("refused");
    };
    assert_eq!(answer.status, wire::STATUS_BAD_NETWORK_NAME);
    assert_eq!(answer.tree_id, 1);
    assert!(answer.body.is_empty());
    assert_eq!(
        refusal.message,
        "a tree connect for \"other\", not \"xmip\""
    );
}

#[test]
fn a_written_file_is_handed_up_when_it_closes() {
    let mut session = serving(no_files());
    let body = message::create_request("a", FILE_OVERWRITE_IF, 0);
    let (answer, event) = ask(&mut session, wire::CREATE, body);
    assert_eq!(event, Some(Event::Created("a".to_string())));
    let (id, length) = message::created(&answer.body).expect("created");
    assert_eq!((id, length), (FileId::of(1), 0));
    assert_eq!(session.files().get("a"), Some(&Vec::new()));
    let body = message::write_request(id, 3, b"xy");
    let (answer, event) = ask(&mut session, wire::WRITE, body);
    assert_eq!(message::written(&answer.body), 2);
    assert_eq!(event, Some(Event::Written("a".to_string(), 2)));
    assert_eq!(session.files().get("a"), Some(&b"\0\0\0xy".to_vec()));
    let body = message::write_request(id, 1, b"ABC");
    ask(&mut session, wire::WRITE, body);
    assert_eq!(session.files().get("a"), Some(&b"\0ABCy".to_vec()));
    assert_eq!(session.files().names(), ["a"]);
    let (answer, event) = ask(&mut session, wire::CLOSE, message::close_request(id));
    assert_eq!(answer.body, message::close_response());
    let Some(event) = event else {
        panic!("committed");
    };
    assert_eq!(
        Session::next_store(event),
        Some(Arrived::new("smb://peer:1/xmip/a".to_string(), b"\0ABCy".to_vec()))
    );
    let (_, event) = ask(&mut session, wire::CLOSE, message::close_request(id));
    assert_eq!(event, None, "closed already");
}

#[test]
fn a_read_is_cut_to_the_file() {
    let mut files = no_files();
    files.insert("a".to_string(), b"hello".to_vec());
    let mut session = serving(files);
    let body = message::create_request("a", FILE_OPEN, 0);
    let (answer, _) = ask(&mut session, wire::CREATE, body);
    let (id, length) = message::created(&answer.body).expect("opened");
    assert_eq!(length, 5);
    let body = message::read_request(id, 1, 3);
    let (answer, event) = ask(&mut session, wire::READ, body);
    assert_eq!(message::read_data(&answer.body).expect("data"), b"ell");
    assert_eq!(event, Some(Event::Read("a".to_string())));
    let body = message::read_request(id, 3, u32::MAX);
    let (answer, _) = ask(&mut session, wire::READ, body);
    assert_eq!(message::read_data(&answer.body).expect("data"), b"lo");
    for offset in [5, 6, u64::MAX] {
        let body = message::read_request(id, offset, 1);
        let (answer, event) = ask(&mut session, wire::READ, body);
        assert_eq!(answer.status, wire::STATUS_END_OF_FILE);
        assert_eq!(answer.body, message::read_response(b""));
        assert_eq!(event, Some(Event::Read("a".to_string())));
    }
    let (_, event) = ask(&mut session, wire::CLOSE, message::close_request(id));
    assert_eq!(event, None, "only read");
    assert_eq!(session.files().get("a"), Some(&b"hello".to_vec()));
}

#[test]
fn what_is_not_there_is_refused_and_nothing_changes() {
    let mut session = serving(no_files());
    let body = message::create_request("a", FILE_OPEN, 0);
    let (answer, event) = ask(&mut session, wire::CREATE, body);
    assert_eq!(answer.status, wire::STATUS_OBJECT_NAME_NOT_FOUND);
    assert_eq!(event, None);
    let id = FileId::of(1);
    let body = message::write_request(id, u64::MAX, b"x");
    let (answer, event) = ask(&mut session, wire::WRITE, body);
    assert_eq!(answer.status, wire::STATUS_OBJECT_NAME_NOT_FOUND);
    assert_eq!(event, None);
    let body = message::read_request(id, 0, 1);
    let (answer, event) = ask(&mut session, wire::READ, body);
    assert_eq!(answer.status, wire::STATUS_OBJECT_NAME_NOT_FOUND);
    assert!(answer.body.is_empty());
    assert_eq!(event, None);
    assert!(session.files().is_empty());
}

#[test]
fn no_id_is_handed_out_twice() {
    let mut files = no_files();
    files.insert("a".to_string(), b"1".to_vec());
    files.insert("b".to_string(), b"2".to_vec());
    let mut session = serving(files);
    let mut ids = Vec::new();
    for name in ["a", "b", "a"] {
        let body = message::create_request(name, FILE_OPEN, 0);
        let (answer, _) = ask(&mut session, wire::CREATE, body);
        let (id, _) = message::created(&answer.body).expect("opened");
        assert!(!ids.contains(&id));
        ids.push(id);
    }
    ask(&mut session, wire::CLOSE, message::close_request(ids[0]));
    let body = message::create_request("a", FILE_OPEN, 0);
    let (answer, _) = ask(&mut session, wire::CREATE, body);
    let (id, _) = message::created(&answer.body).expect("opened");
    assert!(!ids.contains(&id));
    let body = message::write_request(ids[1], 0, b"new");
    ask(&mut session, wire::WRITE, body);
    assert_eq!(session.files().get("a"), Some(&b"1".to_vec()));
    assert_eq!(session.files().get("b"), Some(&b"new".to_vec()));
}

#[test]
fn a_file_opened_to_delete_goes_when_it_closes() {
    let mut files = no_files();
    files.insert("a".to_string(), b"1".to_vec());
    files.insert("b".to_string(), b"2".to_vec());
    let mut session = serving(files);
    let body = message::create_request("a", FILE_OPEN, FILE_DELETE_ON_CLOSE);
    let (answer, _) = ask(&mut session, wire::CREATE, body);
    let (id, _) = message::created(&answer.body).expect("opened");
    assert_eq!(session.files().len(), 2);
    let mut request = Message::request(wire::CLOSE, 20, message::close_request(id));
    request.tree_id = 6;
    let reply = session.serve(&request).expect("served");
    assert_eq!(session.files().len(), 2, "not before the answer is sent");
    assert_eq!(
        session.settle(reply.after),
        Some(Event::Removed("a".to_string()))
    );
    assert_eq!(session.files().names(), ["b"]);
}

#[test]
fn a_listing_names_the_files_in_order() {
    let mut session = serving(no_files());
    let body = directory::request(FileId::of(1), "*");
    let (answer, event) = ask(&mut session, wire::QUERY_DIRECTORY, body.clone());
    assert_eq!(answer.status, wire::STATUS_NO_MORE_FILES);
    assert_eq!(event, Some(Event::Listed));
    let mut files = no_files();
    for name in ["é", "b", "a", "B", "𝄞"] {
        files.insert(name.to_string(), Vec::new());
    }
    let mut session = session.with_files(files);
    let (answer, _) = ask(&mut session, wire::QUERY_DIRECTORY, body);
    assert_eq!(answer.status, wire::STATUS_SUCCESS);
    assert_eq!(
        directory::names(&answer.body).expect("names"),
        ["B", "a", "b", "é", "𝄞"]
    );
    let root = message::create_request("", FILE_OPEN, FILE_DIRECTORY);
    let (answer, event) = ask(&mut session, wire::CREATE, root);
    assert_eq!(answer.status, wire::STATUS_SUCCESS);
    assert_eq!(event, None, "a directory is not created");
}

#[test]
fn other_commands_end_the_session() {
    let mut session = serving(no_files());
    let (answer, event) = ask(&mut session, wire::TREE_DISCONNECT, Vec::new());
    assert_eq!(answer.body, [4, 0, 0, 0]);
    assert_eq!(event, None);
    let request = Message::request(0x000B, 1, Vec::new());
    assert_eq!(
        session.serve(&request).err().expect("refused").message,
        "command 0x000b after the tree connect"
    );
    let request = Message::request(wire::CREATE, 1, vec![0xFF; 56]);
    assert_eq!(
        session.serve(&request).err().expect("refused").message,
        "a region past the end of the message"
    );
    let request = Message::request(wire::CLOSE, 1, Vec::new());
    assert_eq!(
        session.serve(&request).err().expect("refused").message,
        "a file id cut short"
    );
    let request = Message::request(wire::LOGOFF, 1, Vec::new());
    assert!(matches!(session.next_event(Some(request)), Ok(Turn::Over)));
    assert!(matches!(session.next_event(None), Ok(Turn::Over)));
}

#[test]
fn a_write_past_what_memory_holds_is_not_admitted() {
    let mut session = serving(no_files());
    let body = message::create_request("a", FILE_OVERWRITE_IF, 0);
    let (answer, _) = ask(&mut session, wire::CREATE, body);
    let (id, _) = message::created(&answer.body).expect("created");
    let at = |offset: u64| {
        Message::request(wire::WRITE, 1, message::write_request(id, offset, b"xy"))
    };
    assert!(session.admits(&at(isize::MAX as u64 - 2)));
    assert!(!session.admits(&at(isize::MAX as u64 - 1)));
    assert!(!session.admits(&at(u64::MAX)));
}
