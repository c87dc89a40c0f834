use smb::wire::{
    get_u16, get_u32, get_u64, put_u64, region, Message, CREATE, HEADER, MAX_MESSAGE, READ,
    STATUS_SUCCESS,
};

#[test]
fn a_request_and_its_response_read_back_over_a_wire() {
    let request = Message::request(CREATE, 7, b"body".to_vec());
    let mut with_ids = request.clone();
    with_ids.tree_id = 3;
    with_ids.session_id = 9;
    let mut wire = Vec::new();
    with_ids.write(&mut wire);
    let response = with_ids.respond(STATUS_SUCCESS, b"answer".to_vec());
    response.write(&mut wire);
    let (read, taken) = Message::read(&wire).expect("request").expect("whole");
    let read = Message::expect(Some(read)).expect("request");
    assert_eq!(read, with_ids);
    assert!(!read.is_response());
    let cursor = &wire[taken..];
    let (read, taken) = Message::read(cursor).expect("response").expect("whole");
    let read = Message::expect(Some(read)).expect("response");
    assert!(read.is_response());
    assert_eq!(read.tree_id, 3);
    assert_eq!(read.session_id, 9);
    let cursor = &cursor[taken..];
    assert_eq!(Message::read(cursor).expect("closed"), None);
}

#[test]
fn regions_and_a_bad_signature_are_handled() {
    let body = b"..data..".to_vec();
    assert_eq!(
        region(&body, u16::try_from(HEADER).unwrap_or(0) + 2, 4).expect("region"),
        b"data"
    );
    assert_eq!(region(&body, 0, 0).expect("none"), b"");
    assert!(region(&body, 4, 4).is_err(), "inside the header");
    assert!(
        region(&body, u16::try_from(HEADER).unwrap_or(0), 99).is_err(),
        "past the end"
    );
    let mut bad = Message::request(READ, 1, Vec::new()).to_bytes();
    bad[4] = 0;
    assert!(Message::read(&bad).is_err(), "no signature");
}

#[test]
fn a_message_is_framed_byte_by_byte() {
    let mut message = Message::request(CREATE, 0x0102, vec![0xAA]);
    message.tree_id = 3;
    message.session_id = 4;
    let bytes = message.to_bytes();
    assert_eq!(bytes.len(), 69);
    assert_eq!(bytes[..4], [0, 0, 0, 65]);
    assert_eq!(bytes[4..8], [0xFE, 0x53, 0x4D, 0x42]);
    assert_eq!(bytes[8..12], [64, 0, 0, 0]);
    assert_eq!(bytes[16..20], [5, 0, 1, 0]);
    assert_eq!(bytes[28..36], [2, 1, 0, 0, 0, 0, 0, 0]);
    assert_eq!(bytes[40..44], [3, 0, 0, 0]);
    assert_eq!(bytes[44..52], [4, 0, 0, 0, 0, 0, 0, 0]);
    assert_eq!(bytes[68], 0xAA);
}

#[test]
fn a_length_out_of_bounds_is_refused() {
    assert_eq!(
        Message::announced_length([0, 0, 0, 63])
            .expect_err("short")
            .message,
        "an SMB2 message of 63 bytes"
    );
    assert_eq!(
        Message::announced_length([1, 0, 0, 64])
            .expect_err("long")
            .message,
        "an SMB2 message of 16777280 bytes"
    );
    assert_eq!(
        Message::announced_length([0xFF; 4])
            .expect_err("longest")
            .message,
        "an SMB2 message of 4294967295 bytes"
    );
    assert_eq!(
        Message::announced_length([1, 0, 0, 0]).expect("the ceiling"),
        MAX_MESSAGE
    );
    assert_eq!(
        Message::announced_length([0, 0, 0, 64]).expect("a header"),
        HEADER
    );
    assert_eq!(
        Message::announced_length([0, 0xFF, 0xFF, 0xFF]).expect("most"),
        0xFF_FFFF
    );
    assert_eq!(
        Message::expect(None).expect_err("closed").message,
        "the peer closed the connection"
    );
}

#[test]
fn only_an_end_before_a_message_is_clean() {
    let bytes = Message::request(READ, 1, b"xy".to_vec()).to_bytes();
    assert_eq!(Message::read(&[]).expect("clean"), None);
    for end in 1..4 {
        assert_eq!(
            Message::read(&bytes[..end]).expect_err("length").message,
            "a message length cut short"
        );
    }
    assert!(Message::read(&[0, 0]).is_err());
    for end in [4, 5, bytes.len() - 1] {
        assert_eq!(
            Message::read(&bytes[..end]).expect_err("message").message,
            "a message cut short"
        );
    }
    let (_, taken) = Message::read(&bytes).expect("framed").expect("whole");
    assert_eq!(taken, bytes.len());
    assert!(Message::read(&[1, 0, 0, 64]).is_err(), "over the ceiling");
}

#[test]
fn numbers_past_the_end_read_as_zero() {
    assert_eq!(get_u16(&[1, 2], 0), 0x0201);
    assert_eq!(get_u16(&[1, 2], 1), 0);
    assert_eq!(get_u32(&[1, 2, 3, 4], 0), 0x0403_0201);
    assert_eq!(get_u32(&[1, 2, 3], 0), 0);
    assert_eq!(get_u64(&[1, 0, 0, 0, 0, 0, 0, 2], 0), 0x0200_0000_0000_0001);
    let mut bytes = vec![0; 9];
    put_u64(&mut bytes, 1, 0x0200_0000_0000_0001);
    assert_eq!(bytes, [0, 1, 0, 0, 0, 0, 0, 0, 2]);
}
