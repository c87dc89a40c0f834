use smb::directory::{id, names, request, response, status_name};
use smb::message::FileId;
use smb::wire;

#[test]
fn a_directory_listing_carries_its_names_and_a_status_names_itself() {
    let handle = FileId::of(1);
    assert_eq!(id(&request(handle, "*")).expect("id"), handle);
    let listing = vec!["a.edi".to_string(), "b.bin".to_string()];
    let listed = response(&listing);
    assert_eq!(names(&listed).expect("names"), listing);
    assert!(names(&response(&[])).expect("empty").is_empty());
    assert_eq!(status_name(wire::STATUS_BAD_NETWORK_NAME), "no such share");
}

#[test]
fn every_status_has_its_name() {
    assert_eq!(status_name(wire::STATUS_SUCCESS), "success");
    assert_eq!(status_name(wire::STATUS_LOGON_FAILURE), "the logon failed");
    assert_eq!(status_name(wire::STATUS_OBJECT_NAME_NOT_FOUND), "no such file");
    assert_eq!(status_name(wire::STATUS_END_OF_FILE), "the end of the file");
    assert_eq!(status_name(wire::STATUS_NO_MORE_FILES), "no more files");
    assert_eq!(status_name(0xC000_0022), "an error");
}

#[test]
fn a_listing_is_laid_out_entry_by_entry() {
    let body = response(&["a".to_string(), "bc".to_string()]);
    assert_eq!(
        body,
        [
            9, 0, 72, 0, 22, 0, 0, 0, 10, 0, 0, 0, 2, 0, 0, 0, 97, 0, 0, 0, 0, 0, 4, 0, 0, 0, 98,
            0, 99, 0
        ]
    );
}

#[test]
fn a_listing_that_is_cut_short_is_refused() {
    let mut body = response(&["a.edi".to_string()]);
    body.pop();
    assert!(names(&body).is_err());
    assert!(id(&[0; 23]).is_err(), "no id");
}

#[test]
fn an_entry_past_the_buffer_is_refused() {
    // The one entry says that the next begins where four bytes are left.
    let cut = [
        9, 0, 72, 0, 12, 0, 0, 0, 10, 0, 0, 0, 2, 0, 0, 0, 0x61, 0, 0, 0,
    ];
    assert_eq!(
        names(&cut).expect_err("cut short").message,
        "a directory entry past the buffer"
    );
    // And here, that it begins past the end.
    let past = [9, 0, 72, 0, 10, 0, 0, 0, 99, 0, 0, 0, 2, 0, 0, 0, 0x61, 0];
    assert_eq!(
        names(&past).expect_err("past").message,
        "a directory entry past the buffer"
    );
}
