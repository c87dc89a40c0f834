use smb::message::{
    close_id, close_request, create_fields, create_request, create_response, created,
    negotiate_request, negotiate_response, read_data, read_fields, read_request, read_response,
    session_setup, session_token, tree_connect_path, tree_connect_request, tree_connect_response,
    write_fields, write_request, write_response, written, FileId, FILE_DELETE_ON_CLOSE, FILE_OPEN,
};

#[test]
fn a_session_setup_and_a_tree_connect_carry_their_out_of_line_fields() {
    let token = b"NTLMSSP\0token".to_vec();
    assert_eq!(
        session_token(&session_setup(false, &token)).expect("req"),
        token
    );
    assert_eq!(
        session_token(&session_setup(true, &token)).expect("resp"),
        token
    );
    let path = r"\\server\share";
    assert_eq!(
        tree_connect_path(&tree_connect_request(path)).expect("path"),
        path
    );
}

#[test]
fn a_create_write_read_and_close_round_trip_their_ids_and_bytes() {
    let (name, disp, options) = create_fields(&create_request(
        "orders.edi",
        FILE_OPEN,
        FILE_DELETE_ON_CLOSE,
    ))
    .expect("create");
    assert_eq!(
        (name.as_str(), disp, options),
        ("orders.edi", FILE_OPEN, FILE_DELETE_ON_CLOSE)
    );
    let id = FileId::of(42);
    let (created_id, len) = created(&create_response(id, 7)).expect("created");
    assert_eq!((created_id, len), (id, 7));
    let (wid, off, data) = write_fields(&write_request(id, 8, b"\0\xff")).expect("write");
    assert_eq!((wid, off, data), (id, 8, b"\0\xff".to_vec()));
    assert_eq!(written(&write_response(2)), 2);
    let (rid, roff, rlen) = read_fields(&read_request(id, 0, 16)).expect("read");
    assert_eq!((rid, roff, rlen), (id, 0, 16));
    assert_eq!(read_data(&read_response(b"data")).expect("data"), b"data");
    assert_eq!(close_id(&close_request(id)).expect("close"), id);
}

#[test]
fn a_file_id_holds_its_seed_in_both_halves() {
    assert_eq!(
        FileId::of(0x0102_0304_0506_0708).0,
        [8, 7, 6, 5, 4, 3, 2, 1, 8, 7, 6, 5, 4, 3, 2, 1]
    );
    assert_eq!(
        FileId::of(42).0,
        [42, 0, 0, 0, 0, 0, 0, 0, 42, 0, 0, 0, 0, 0, 0, 0]
    );
    assert!(!FileId::of(1).same(&FileId::of(2)));
    assert!(FileId::of(1).same(&FileId::of(1)));
}

#[test]
fn the_fixed_parts_have_their_sizes() {
    assert_eq!(negotiate_request().len(), 38);
    assert_eq!(negotiate_request()[..8], [36, 0, 1, 0, 1, 0, 0, 0]);
    assert_eq!(negotiate_request()[36..], [0x02, 0x02]);
    assert_eq!(negotiate_response().len(), 64);
    assert_eq!(negotiate_response()[..6], [65, 0, 1, 0, 0x02, 0x02]);
    assert_eq!(
        tree_connect_response(),
        [16, 0, 1, 0, 0, 0, 0, 0, 0, 0, 0, 0, 0xFF, 0x01, 0x1F, 0x00]
    );
    assert_eq!(create_request("ab", 1, 0).len(), 60);
    assert_eq!(create_response(FileId::of(1), 0).len(), 88);
    assert_eq!(write_request(FileId::of(1), 0, b"xyz").len(), 51);
    assert_eq!(read_request(FileId::of(1), 0, 1).len(), 48);
    assert_eq!(read_response(b"xyz").len(), 19);
    assert_eq!(close_request(FileId::of(1)).len(), 24);
}

#[test]
fn what_is_cut_short_is_refused() {
    assert_eq!(
        created(&[0; 79]).expect_err("short").message,
        "a file id cut short"
    );
    assert!(write_fields(&[0; 31]).is_err());
    assert!(read_fields(&[0; 31]).is_err());
    assert!(close_id(&[0; 23]).is_err());
    let mut body = tree_connect_request("name");
    body.pop();
    assert_eq!(
        tree_connect_path(&body).expect_err("short").message,
        "a region past the end of the message"
    );
    body[4] = 8;
    body[5] = 0;
    assert_eq!(
        tree_connect_path(&body).expect_err("inside").message,
        "an offset inside the header"
    );
}
