use std::time::Duration;

use smb::accepting::{Accept, Accepting};
use smb::arrived::Arrived;
use smb::client::Step;
use smb::error::TransportError;
use smb::session::{self, Turn};
use smb::share::Files;
use smb::text::rest_past_last;
use smb::transfer::{kept, taken, LOOPBACK_FILE};
use smb::wire::Message;
use smb::{Event, Identity, Session, SmbTransport};

fn secs(n: u64) -> Duration {
    Duration::from_secs(n)
}

/// A message as the far end reads it off the wire.
fn over_the_wire(message: &Message) -> Message {
    let bytes = message.to_bytes();
    let (read, taken) = Message::read(&bytes).expect("framed").expect("whole");
    assert_eq!(taken, bytes.len());
    read
}

fn number(token: &[u8], at: usize, width: usize) -> usize {
    (0..width).rfold(0, |number, i| 256 * number + usize::from(token[at + i]))
}

/// The token opens as an NTLM message of this type, at least `length` long.
fn opens(token: &[u8], message_type: u8, length: usize) -> Result<(), String> {
    if token.len() < length || token[..12] != [&b"NTLMSSP\0"[..], &[message_type, 0, 0, 0]].concat()
    {
        return Err(format!("not an NTLM message of type {message_type}"));
    }
    Ok(())
}

/// The flags that a client's first token asks for.
fn asked(token: &[u8]) -> Result<u32, String> {
    opens(token, 1, 32)?;
    Ok(number(token, 12, 4) as u32)
}

/// What comes of reading the identity that a client's second token names.
fn identified(token: &[u8]) -> Result<(), String> {
    opens(token, 3, 64)?;
    for at in [12, 20, 28, 36, 44, 52] {
        let end = number(token, at + 4, 4) + number(token, at, 2);
        if end > token.len() {
            return Err("an NTLM field past the token".to_string());
        }
    }
    Ok(())
}

/// A server's challenge, with no target and no target information.
fn challenge(flags: u32, nonce: [u8; 8]) -> Vec<u8> {
    let mut token = b"NTLMSSP\0\x02\0\0\0".to_vec();
    token.extend([0, 0, 0, 0, 48, 0, 0, 0]);
    token.extend(flags.to_le_bytes());
    token.extend(nonce);
    token.extend([0; 12]);
    token.extend([48, 0, 0, 0]);
    token
}

/// How far the server at the far end has come.
enum Phase {
    Accepting(Accepting),
    Serving(Session),
    Over(Option<Session>),
}

/// The server at the far end of an in-memory connection.
struct FarEnd {
    phase: Phase,
    files: Option<Files>,
    events: Vec<Event>,
    refusal: Option<TransportError>,
}

impl FarEnd {
    fn new(id: u64) -> FarEnd {
        FarEnd {
            phase: Phase::Accepting(Session::accept("127.0.0.1:50446".to_string(), id)),
            files: None,
            events: Vec::new(),
            refusal: None,
        }
    }

    fn with_files(self, files: Files) -> FarEnd {
        FarEnd {
            files: Some(files),
            ..self
        }
    }

    fn session(&self) -> &Session {
        match &self.phase {
            Phase::Serving(session) | Phase::Over(Some(session)) => session,
            _ => panic!("not accepted"),
        }
    }

    fn answer(&mut self, request: &Message) -> Result<Option<Message>, TransportError> {
        let read = Some(over_the_wire(request));
        let phase = std::mem::replace(&mut self.phase, Phase::Over(None));
        let (phase, answer) = match phase {
            Phase::Accepting(accepting) => match accepting.take(read)? {
                Accept::Answer(next, answer) => (Phase::Accepting(next), answer),
                Accept::Negotiate(next, token) => {
                    let flags = Session::offered(asked(&token))?;
                    let nonce = session::fresh_nonce(Some(1), 2, 445);
                    let (next, answer) = next.offer(&challenge(flags, nonce));
                    (Phase::Accepting(next), answer)
                }
                Accept::Authenticate(next, token) => {
                    let (next, answer) = next.confirm(identified(&token))?;
                    (Phase::Accepting(next), answer)
                }
                Accept::Connected(session, answer) => {
                    let session = match self.files.take() {
                        Some(files) => session.with_files(files),
                        None => session,
                    };
                    (Phase::Serving(session), answer)
                }
                Accept::Refused(answer, refusal) => {
                    self.refusal = Some(refusal);
                    (Phase::Over(None), answer)
                }
            },
            Phase::Serving(mut session) => match session.next_event(read)? {
                Turn::Over => {
                    self.phase = Phase::Over(Some(session));
                    return Ok(None);
                }
                Turn::Served(reply) => {
                    self.events.extend(session.settle(reply.after));
                    (Phase::Serving(session), reply.answer)
                }
            },
            Phase::Over(session) => {
                self.phase = Phase::Over(session);
                return Ok(None);
            }
        };
        self.phase = phase;
        Ok(Some(over_the_wire(&answer)))
    }

    fn stored(self) -> Option<Arrived> {
        self.events.into_iter().fold(None, kept)
    }
}

fn send(
    transport: &SmbTransport,
    target: &str,
    bytes: &[u8],
    far: &mut FarEnd,
) -> Result<(), TransportError> {
    let (server, share, name) = transport.resolve(target, None)?;
    let (mut sending, mut request) = transport.send(&server, &share, name, bytes);
    loop {
        let answer = far.answer(&request)?;
        assert!(sending.can_ask());
        match sending.take(answer)? {
            Step::Ask(next, message) => {
                assert_eq!(message.message_id, request.message_id + 1);
                sending = next;
                request = message;
            }
            Step::Done(logoff) => {
                assert_eq!(far.answer(&logoff)?, None);
                return Ok(());
            }
        }
    }
}

fn receive(transport: &SmbTransport, far: &mut FarEnd) -> Result<Vec<Arrived>, TransportError> {
    let (mut receiving, mut request) = transport.receive();
    loop {
        let answer = far.answer(&request)?;
        assert!(receiving.can_ask());
        match receiving.take(answer)? {
            Step::Ask(next, message) => {
                assert_eq!(message.message_id, request.message_id + 1);
                receiving = next;
                request = message;
            }
            Step::Done(received) => {
                assert_eq!(far.answer(&received.logoff)?, None);
                return Ok(received.arrived);
            }
        }
    }
}

/// One payload from the near end of a loopback pair to its far end.
fn round(pair: &SmbTransport, payload: &[u8]) -> Result<Arrived, TransportError> {
    let mut far = FarEnd::new(1);
    let near = SmbTransport::new("127.0.0.1:50445", pair.share()).timing_out_after(secs(2));
    send(&near, LOOPBACK_FILE, payload, &mut far)?;
    taken(far.stored())
}

/// Payloads at the edges of what a Stream can be.
fn edge_payloads() -> Vec<(&'static str, Vec<u8>)> {
    vec![
        ("empty", Vec::new()),
        ("one byte", vec![0x2a]),
        ("every byte", (0..=255).collect()),
        ("nul run", vec![0; 512]),
        ("high bytes", vec![0xff; 512]),
        ("crlf storm", b"\r\n".repeat(400)),
    ]
}

#[test]
fn the_loopback_writes_one_file_and_takes_it() {
    let pair = SmbTransport::loopback(secs(2));
    let arrived = round(&pair, b"UNA:+.? '").expect("round");
    assert_eq!(arrived.bytes, b"UNA:+.? '");
    assert!(arrived.origin_uri.starts_with("smb://127.0.0.1:"));
    assert!(arrived.origin_uri.ends_with("/xmip/probe.bin"));
    let long: Vec<u8> = (0..2_000_000u32).map(|n| (n % 251) as u8).collect();
    assert_eq!(round(&pair, &long).expect("chunks").bytes, long);
    assert_eq!(pair.name(), "smb");
}

#[test]
fn the_loopback_returns_the_edge_payloads_whole() {
    let pair = SmbTransport::loopback(secs(2));
    for (name, payload) in edge_payloads() {
        let arrived = round(&pair, &payload).expect(name);
        assert_eq!(arrived.bytes, payload, "{name}");
    }
}

#[test]
fn a_receive_lists_reads_and_removes_each_file() {
    let files = || {
        let mut files = Files::new();
        files.insert("1.edi".to_string(), b"UNA:+.? '".to_vec());
        files.insert("2.bin".to_string(), vec![0xff, 0x00]);
        files
    };
    let near = SmbTransport::new("127.0.0.1:50445", session::SHARE).timing_out_after(secs(2));
    let mut far = FarEnd::new(1).with_files(files());
    let first = receive(&near, &mut far).expect("receiving");
    assert_eq!(far.session().tree(), session::SHARE);
    assert!(far.events.contains(&Event::Read("1.edi".to_string())));
    assert!(far.events.contains(&Event::Removed("1.edi".to_string())));
    assert!(far.session().files().is_empty(), "removed after read");
    let mut far = FarEnd::new(2).with_files(files());
    let again = receive(&near.leaving_files(), &mut far).expect("receiving");
    assert_eq!(far.session().files().len(), 2, "left in place");
    assert_eq!(first.len(), 2);
    assert_eq!(first[0].bytes, b"UNA:+.? '");
    assert!(first[0].origin_uri.ends_with("/xmip/1.edi"));
    assert_eq!(first[1].bytes, [0xff, 0x00]);
    assert_eq!(again.len(), 2);
}

#[test]
fn the_wrong_share_a_missing_file_and_a_bad_target_are_refused() {
    let found = |server: &str, path: &str| Some((server.to_string(), path.to_string()));
    let resolved = |server: &str, share: &str, name: &str| {
        (server.to_string(), share.to_string(), name.to_string())
    };
    let far_end = SmbTransport::new("127.0.0.1:0", session::SHARE).timing_out_after(secs(2));
    assert!(far_end.resolve("a/b", None).is_err(), "not a name");
    assert!(
        far_end.resolve("smb://h/only", found("h", "only")).is_err(),
        "no file"
    );
    assert_eq!(
        far_end
            .resolve("smb://h:445/data/1.edi", found("h:445", "data/1.edi"))
            .expect("full"),
        resolved("h:445", "data", "1.edi")
    );
    assert_eq!(
        far_end.resolve("1.edi", None).expect("name"),
        resolved("127.0.0.1:0", session::SHARE, "1.edi")
    );
    let mut far = FarEnd::new(1);
    let near = SmbTransport::new("127.0.0.1:50445", "nosuch").timing_out_after(secs(2));
    let wrong = send(&near, "x.edi", b"x", &mut far);
    let refused = far.refusal.expect("bad share");
    assert!(refused.message.contains("nosuch"), "{}", refused.message);
    let mut far = FarEnd::new(2);
    let near = SmbTransport::new("127.0.0.1:50445", session::SHARE).timing_out_after(secs(2));
    let missing = receive(&near, &mut far);
    assert!(wrong
        .expect_err("bad share")
        .message
        .contains("no such share"));
    assert!(missing.expect("empty receive").is_empty());
}

#[test]
fn a_refusal_is_spelled_out_on_both_sides() {
    let mut far = FarEnd::new(1);
    let near = SmbTransport::new("host:445", "no \"such\"");
    let wrong = send(&near, "x.edi", b"x", &mut far).expect_err("refused");
    assert_eq!(
        wrong.message,
        "the server answered: no such share (0xc00000cc)"
    );
    assert!(!wrong.retryable);
    assert_eq!(
        far.refusal.expect("refused").message,
        "a tree connect for \"no \\\"such\\\"\", not \"xmip\""
    );
    let near = SmbTransport::new("h", "data");
    assert_eq!(
        near.resolve("a/\u{7}", None).expect_err("target").message,
        "\"a/\\u{7}\" is not a name on data"
    );
    assert_eq!(
        near.resolve("", None).expect_err("target").message,
        "\"\" is not a name on data"
    );
    for path in ["only", "/name", "share/", ""] {
        let found = Some(("h".to_string(), path.to_string()));
        assert_eq!(
            near.resolve("smb://h", found).expect_err("target").message,
            "\"smb://h\" is not smb://host/share/name",
            "{path}"
        );
    }
}

#[test]
fn what_is_sent_is_received() {
    let near = SmbTransport::new("host:445", session::SHARE);
    let mut kept = Files::new();
    kept.insert("old.edi".to_string(), b"old".to_vec());
    let mut far = FarEnd::new(1).with_files(kept);
    let bytes: Vec<u8> = (0..1_048_577u32).map(|n| (n % 253) as u8).collect();
    send(&near, "ü𝄞.edi", &bytes, &mut far).expect("sent");
    assert_eq!(
        far.events,
        [
            Event::Created("ü𝄞.edi".to_string()),
            Event::Written("ü𝄞.edi".to_string(), 1_048_576),
            Event::Written("ü𝄞.edi".to_string(), 1),
            Event::Committed(Arrived {
                origin_uri: "smb://127.0.0.1:50446/xmip/ü𝄞.edi".to_string(),
                bytes: bytes.clone(),
            }),
        ]
    );
    assert_eq!(far.session().files().names(), ["old.edi", "ü𝄞.edi"]);
    let mut files = Files::new();
    for name in far.session().files().names() {
        let content = far.session().files().get(&name).expect("file").clone();
        files.insert(name, content);
    }
    let mut far = FarEnd::new(2).with_files(files);
    let arrived = receive(&near, &mut far).expect("received");
    assert_eq!(arrived.len(), 2);
    assert_eq!(arrived[0].bytes, b"old");
    assert_eq!(arrived[1].bytes, bytes);
    assert_eq!(arrived[1].origin_uri, "smb://host:445/xmip/ü𝄞.edi");
    assert!(far.session().files().is_empty());
}

#[test]
fn the_directories_of_a_listing_are_not_received() {
    let mut files = Files::new();
    files.insert(".".to_string(), b"dot".to_vec());
    files.insert("..".to_string(), b"dots".to_vec());
    files.insert("a".to_string(), Vec::new());
    let near = SmbTransport::new("host:445", session::SHARE);
    let mut far = FarEnd::new(1).with_files(files);
    let arrived = receive(&near, &mut far).expect("received");
    assert_eq!(arrived.len(), 1);
    assert_eq!(arrived[0].origin_uri, "smb://host:445/xmip/a");
    assert!(arrived[0].bytes.is_empty());
    assert_eq!(far.session().files().names(), [".", ".."]);
    assert_eq!(
        far.events,
        [
            Event::Listed,
            Event::Created("a".to_string()),
            Event::Created("a".to_string()),
            Event::Removed("a".to_string()),
        ]
    );
}

#[test]
fn a_file_over_the_largest_is_not_received() {
    let far = || {
        let mut files = Files::new();
        files.insert("1.edi".to_string(), b"UNA:+.? '".to_vec());
        FarEnd::new(1).with_files(files)
    };
    let near = || SmbTransport::new("host:445", session::SHARE);
    let mut over = far();
    assert_eq!(
        receive(&near().reading_at_most(8), &mut over)
            .expect_err("over")
            .message,
        "a file of 9 bytes, over the largest of 8"
    );
    assert_eq!(over.session().files().names(), ["1.edi"], "left in place");
    let mut within = far();
    let arrived = receive(&near().reading_at_most(9), &mut within).expect("within");
    assert_eq!(arrived[0].bytes, b"UNA:+.? '");
    assert!(within.session().files().is_empty());
    let mut empty = far();
    assert!(receive(&near().reading_at_most(0), &mut empty).is_err());
}

#[test]
fn a_far_end_keeps_the_first_file_it_took() {
    let first = Arrived::new("smb://h/s/1".to_string(), vec![1]);
    let second = Arrived::new("smb://h/s/2".to_string(), vec![2]);
    let events = vec![
        Event::Created("1".to_string()),
        Event::Committed(first.clone()),
        Event::Committed(second),
        Event::Listed,
    ];
    assert_eq!(events.into_iter().fold(None, kept), Some(first));
    assert_eq!(kept(None, Event::Listed), None);
}

#[test]
fn a_transport_keeps_what_it_was_given() {
    let transport = SmbTransport::new("host:445", "data")
        .as_identity(Identity {
            domain: "D".to_string(),
            user: "U".to_string(),
            workstation: "W".to_string(),
        })
        .timing_out_after(secs(3));
    assert_eq!(transport.server(), "host:445");
    assert_eq!(transport.share(), "data");
    assert_eq!(transport.timeout(), Some(secs(3)));
    assert_eq!(SmbTransport::new("h", "s").timeout(), None);
    let pair = SmbTransport::loopback(secs(4));
    assert_eq!(pair.server(), "127.0.0.1:0");
    assert_eq!(pair.share(), "xmip");
    assert_eq!(pair.timeout(), Some(secs(4)));
    assert_eq!(SmbTransport::share_path("host:445", "data"), r"\\host\data");
    assert_eq!(SmbTransport::share_path("host", "data"), r"\\host\data");
    assert_eq!(SmbTransport::share_path("::1", "data"), r"\\\data");
    assert_eq!(
        rest_past_last(&SmbTransport::share_path("host:445", "data"), '\\'),
        "data"
    );
    let (_, request) = transport.connect();
    assert_eq!(request.message_id, 0);
}

#[test]
fn a_far_end_that_took_nothing_says_so() {
    assert_eq!(
        taken(None).expect_err("nothing").message,
        "the client logged off without writing"
    );
    let arrived = Arrived::new("smb://h/s/n".to_string(), vec![1]);
    assert_eq!(taken(Some(arrived.clone())).expect("taken"), arrived);
}
