use smb::ntlm;
use smb::ntlm::Identity;
use smb::ntlmssp::{authenticate_message, challenge_nonce, negotiate_message};

#[test]
fn a_negotiate_is_laid_out_field_by_field() {
    let mut due = b"NTLMSSP\0".to_vec();
    due.extend([1, 0, 0, 0]);
    due.extend([0x01, 0x02, 0, 0]);
    due.extend([0; 24]);
    assert_eq!(negotiate_message(), due);
}

#[test]
fn an_authenticate_is_laid_out_field_by_field() {
    let identity = Identity {
        domain: "DO".to_string(),
        user: "é".to_string(),
        workstation: "𝄞W".to_string(),
    };
    let mut due = b"NTLMSSP\0".to_vec();
    due.extend([3, 0, 0, 0]);
    due.extend([0, 0, 0, 0, 72, 0, 0, 0]);
    due.extend([0, 0, 0, 0, 72, 0, 0, 0]);
    due.extend([4, 0, 4, 0, 72, 0, 0, 0]);
    due.extend([2, 0, 2, 0, 76, 0, 0, 0]);
    due.extend([6, 0, 6, 0, 78, 0, 0, 0]);
    due.extend([0, 0, 0, 0, 72, 0, 0, 0]);
    due.extend([0x01, 0x02, 0, 0]);
    due.extend([0; 8]);
    due.extend([b'D', 0, b'O', 0]);
    due.extend([0xE9, 0]);
    due.extend([0x34, 0xD8, 0x1E, 0xDD, b'W', 0]);
    assert_eq!(authenticate_message(&identity), due);
    let nobody = authenticate_message(&Identity::default());
    assert_eq!(nobody.len(), 72);
    assert_eq!(nobody[28..36], [0, 0, 0, 0, 72, 0, 0, 0]);
}

#[test]
fn a_name_too_long_to_count_is_counted_as_far_as_it_goes() {
    let identity = Identity {
        domain: "d".repeat(0x8000),
        user: "u".to_string(),
        workstation: String::new(),
    };
    let token = authenticate_message(&identity);
    assert_eq!(token.len(), 72 + 0x1_0000 + 2);
    assert_eq!(token[28..36], [0xFF, 0xFF, 0xFF, 0xFF, 72, 0, 0, 0]);
    assert_eq!(token[36..44], [2, 0, 2, 0, 72, 0, 1, 0]);
    assert_eq!(token[44..52], [0, 0, 0, 0, 74, 0, 1, 0]);
}

#[test]
fn a_nonce_is_read_where_a_challenge_carries_it() {
    let mut token = b"NTLMSSP\0".to_vec();
    token.extend([2, 0, 0, 0]);
    token.extend([9; 12]);
    token.extend([1, 2, 3, 4, 5, 6, 7, 8]);
    assert_eq!(
        challenge_nonce(&token).expect("nonce"),
        [1, 2, 3, 4, 5, 6, 7, 8]
    );
    for end in [8, 11, 12, 31] {
        assert_eq!(
            challenge_nonce(&token[..end]).expect_err("cut").message,
            "a challenge without its nonce"
        );
    }
    assert_eq!(
        challenge_nonce(b"nope").expect_err("unsigned").message,
        "a token without the NTLMSSP signature"
    );
    assert_eq!(
        challenge_nonce(&negotiate_message())
            .expect_err("type")
            .message,
        "not an NTLM challenge"
    );
    assert!(challenge_nonce(&ntlm::challenge(&[0; 8])).is_err());
}
