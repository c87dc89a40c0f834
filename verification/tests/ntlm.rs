use smb::ntlm::{
    authenticate, challenge, message_type, negotiate, read_authenticate, read_challenge, Identity,
    AUTHENTICATE, CHALLENGE, NEGOTIATE,
};

#[test]
fn the_three_tokens_carry_their_type_and_read_back() {
    assert_eq!(message_type(&negotiate()).expect("type"), NEGOTIATE);
    let nonce = [1, 2, 3, 4, 5, 6, 7, 8];
    let challenge = challenge(&nonce);
    assert_eq!(message_type(&challenge).expect("type"), CHALLENGE);
    assert_eq!(read_challenge(&challenge).expect("nonce"), nonce);
    let identity = Identity {
        domain: "WORKGROUP".to_string(),
        user: "xmip".to_string(),
        workstation: "XMIP-HOST".to_string(),
    };
    let token = authenticate(&identity);
    assert_eq!(message_type(&token).expect("type"), AUTHENTICATE);
    assert_eq!(read_authenticate(&token).expect("identity"), identity);
}

#[test]
fn a_token_of_the_wrong_type_or_shape_is_refused() {
    assert!(message_type(b"nope").is_err());
    assert!(read_challenge(&negotiate()).is_err());
    assert!(read_authenticate(&challenge(&[0; 8])).is_err());
    let mut cut = authenticate(&Identity::default());
    cut.truncate(13);
    assert!(read_authenticate(&cut).is_err(), "cut short");
}

#[test]
fn a_token_says_what_is_wrong_with_it() {
    assert_eq!(
        message_type(b"nope").expect_err("unsigned").message,
        "a token without the NTLMSSP signature"
    );
    let mut cut = challenge(&[0; 8]);
    cut.truncate(19);
    assert_eq!(
        read_challenge(&cut).expect_err("cut").message,
        "a challenge without its nonce"
    );
    assert_eq!(
        read_authenticate(&negotiate()).expect_err("type").message,
        "not an NTLM authenticate"
    );
    let mut cut = authenticate(&Identity::default());
    cut.truncate(17);
    assert_eq!(
        read_authenticate(&cut).expect_err("cut").message,
        "an NTLM field past the token"
    );
}

#[test]
fn a_token_is_laid_out_field_by_field() {
    let identity = Identity {
        domain: "D".to_string(),
        user: "é".to_string(),
        workstation: String::new(),
    };
    let mut due = b"NTLMSSP\0".to_vec();
    due.extend([3, 0, 0, 0, 2, 0, 0x44, 0, 2, 0, 0xE9, 0, 0, 0]);
    assert_eq!(authenticate(&identity), due);
}
