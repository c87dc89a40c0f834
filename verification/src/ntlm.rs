//! The `NTLMSSP` tokens in counted fields: the client's Negotiate, the server's
//! Challenge with its eight-byte nonce, and the client's Authenticate naming the
//! domain, user and workstation. What a session setup carries is laid out in
//! [`crate::ntlmssp`]; the identity, the signature and the types are shared.
//!
//! **The `NTLMv2` response is not computed here.** A real Authenticate carries
//! an `HMAC-MD5` over the challenge keyed by an MD4 of the password; that
//! cryptography belongs to the identity capability. Here the Authenticate
//! carries the identity, and a server takes it as a guest logon. The token
//! layout is a counted-field simplification of NTLM's security buffers; it is
//! enough to carry the identity both ways.

use vstd::prelude::*;

use crate::error::{agrees, permanent_fault, protocol_error, Fault, TransportError};
use crate::message::{length16, to_length16};
use crate::utf16;
use crate::utf16::{from_utf16, law_utf16_reads_back, utf16};
use crate::wire::{
    get_u16, get_u32, law_u16_reads_back, law_u32_reads_back, le16, le32, push_bytes, push_u16,
    push_u32, u16_at, u32_at,
};

verus! {

/// The eight bytes that open every `NTLMSSP` token.
pub const NTLMSSP: [u8; 8] = [0x4E, 0x54, 0x4C, 0x4D, 0x53, 0x53, 0x50, 0x00];

/// `NtLmNegotiate`.
pub const NEGOTIATE: u32 = 1;

/// `NtLmChallenge`.
pub const CHALLENGE: u32 = 2;

/// `NtLmAuthenticate`.
pub const AUTHENTICATE: u32 = 3;

/// The identity an Authenticate token carries.
#[derive(Clone, Debug, Default, PartialEq, Eq)]
pub struct Identity {
    pub domain: String,
    pub user: String,
    pub workstation: String,
}

/// What an [`Identity`] says, as a mathematical value.
#[verifier::ext_equal]
pub struct IdentityView {
    pub domain: Seq<char>,
    pub user: Seq<char>,
    pub workstation: Seq<char>,
}

impl View for Identity {
    type V = IdentityView;

    open spec fn view(&self) -> IdentityView {
        IdentityView {
            domain: self.domain@,
            user: self.user@,
            workstation: self.workstation@,
        }
    }
}

/// The signature and the type that open a token.
pub open spec fn head_of(message_type: u32) -> Seq<u8> {
    NTLMSSP@ + le32(message_type)
}

/// The token opens with the `NTLMSSP` signature.
pub open spec fn is_signed(token: Seq<u8>) -> bool {
    token.len() >= 8 && token.subrange(0, 8) == NTLMSSP@
}

/// The message type a token declares.
pub open spec fn type_in(token: Seq<u8>) -> Result<u32, Fault> {
    if is_signed(token) {
        Ok(u32_at(token, 8))
    } else {
        Err(permanent_fault("a token without the NTLMSSP signature"@))
    }
}

/// The server's Challenge token.
pub open spec fn challenge_token(nonce: Seq<u8>) -> Seq<u8> {
    head_of(CHALLENGE) + nonce
}

/// The nonce a Challenge token carries.
pub open spec fn nonce_in(token: Seq<u8>) -> Result<Seq<u8>, Fault> {
    if is_signed(token) && token.len() < 12 {
        Err(permanent_fault("a challenge without its nonce"@))
    } else {
        match type_in(token) {
            Err(fault) => Err(fault),
            Ok(declared) => if declared != CHALLENGE {
                Err(permanent_fault("not an NTLM challenge"@))
            } else if token.len() < 20 {
                Err(permanent_fault("a challenge without its nonce"@))
            } else {
                Ok(token.subrange(12, 20))
            },
        }
    }
}

/// A name as a token carries it: its length in bytes, then its UTF-16.
pub open spec fn counted(name: Seq<char>) -> Seq<u8> {
    le16(length16(utf16(name).len())) + utf16(name)
}

/// The client's Authenticate token, naming `identity`.
pub open spec fn authenticate_token(identity: IdentityView) -> Seq<u8> {
    head_of(AUTHENTICATE) + counted(identity.domain) + counted(identity.user) + counted(
        identity.workstation,
    )
}

/// The name that stands at `at` in `token`, and where it ends.
pub open spec fn counted_at(token: Seq<u8>, at: int) -> Result<(Seq<char>, int), Fault> {
    let end = at + 2 + u16_at(token, at);
    if end <= token.len() {
        Ok((from_utf16(token.subrange(at + 2, end)), end))
    } else {
        Err(permanent_fault("an NTLM field past the token"@))
    }
}

/// The identity an Authenticate token carries.
pub open spec fn identity_in(token: Seq<u8>) -> Result<IdentityView, Fault> {
    if is_signed(token) && token.len() < 12 {
        Err(permanent_fault("an NTLM field past the token"@))
    } else {
        match type_in(token) {
            Err(fault) => Err(fault),
            Ok(declared) => if declared != AUTHENTICATE {
                Err(permanent_fault("not an NTLM authenticate"@))
            } else {
                match counted_at(token, 12) {
                    Err(fault) => Err(fault),
                    Ok((domain, after_domain)) => match counted_at(token, after_domain) {
                        Err(fault) => Err(fault),
                        Ok((user, after_user)) => match counted_at(token, after_user) {
                            Err(fault) => Err(fault),
                            Ok((workstation, _)) => Ok(
                                IdentityView { domain, user, workstation },
                            ),
                        },
                    },
                }
            },
        }
    }
}

pub(crate) fn head(message_type: u32) -> (token: Vec<u8>)
    ensures
        token@ == head_of(message_type),
{
    let mut out: Vec<u8> = Vec::new();
    push_bytes(&mut out, &NTLMSSP);
    push_u32(&mut out, message_type);
    assert(out@ =~= head_of(message_type));
    out
}

/// The client's Negotiate token.
pub fn negotiate() -> (token: Vec<u8>)
    ensures
        token@ == head_of(NEGOTIATE),
{
    head(NEGOTIATE)
}

/// The server's Challenge token, carrying its `nonce`.
pub fn challenge(nonce: &[u8; 8]) -> (token: Vec<u8>)
    ensures
        token@ == challenge_token(nonce@),
{
    let mut out = head(CHALLENGE);
    push_bytes(&mut out, nonce);
    out
}

/// The nonce a Challenge token carries.
pub fn read_challenge(token: &[u8]) -> (nonce: Result<[u8; 8], TransportError>)
    ensures
        agrees(nonce, nonce_in(token@)),
{
    if signed(token) && token.len() < 12 {
        return Err(protocol_error("a challenge without its nonce"));
    }
    let declared = match message_type(token) {
        Ok(declared) => declared,
        Err(error) => return Err(error),
    };
    if declared != CHALLENGE {
        return Err(protocol_error("not an NTLM challenge"));
    }
    if token.len() < 20 {
        return Err(protocol_error("a challenge without its nonce"));
    }
    let nonce = [
        token[12],
        token[13],
        token[14],
        token[15],
        token[16],
        token[17],
        token[18],
        token[19],
    ];
    assert(nonce@ =~= token@.subrange(12, 20));
    Ok(nonce)
}

fn push_counted(out: &mut Vec<u8>, name: &str)
    ensures
        final(out)@ == old(out)@ + counted(name@),
{
    let encoded = utf16::encode(name);
    push_u16(out, to_length16(encoded.len()));
    push_bytes(out, &encoded);
    assert(out@ =~= old(out)@ + counted(name@));
}

/// The client's Authenticate token, naming `identity`. The `NTLMv2` response
/// the identity capability computes would follow; here there is none, and the
/// server takes the logon as a guest.
pub fn authenticate(identity: &Identity) -> (token: Vec<u8>)
    ensures
        token@ == authenticate_token(identity@),
{
    let mut out = head(AUTHENTICATE);
    push_counted(&mut out, &identity.domain);
    push_counted(&mut out, &identity.user);
    push_counted(&mut out, &identity.workstation);
    out
}

fn read_counted(token: &[u8], at: usize) -> (name: Result<(String, usize), TransportError>)
    requires
        at <= token@.len(),
    ensures
        match (name, counted_at(token@, at as int)) {
            (Ok(read), Ok(model)) => read.0@ == model.0 && read.1 == model.1 && read.1
                <= token@.len(),
            (Err(error), Err(fault)) => error@ == fault,
            _ => false,
        },
{
    let length = get_u16(token, at) as usize;
    if token.len() - at < 2 || token.len() - at - 2 < length {
        return Err(protocol_error("an NTLM field past the token"));
    }
    let start = at + 2;
    let end = start + length;
    Ok((utf16::decode_lossy(&token[start..end]), end))
}

/// The identity an Authenticate token carries.
pub fn read_authenticate(token: &[u8]) -> (identity: Result<Identity, TransportError>)
    ensures
        agrees(identity, identity_in(token@)),
{
    if signed(token) && token.len() < 12 {
        return Err(protocol_error("an NTLM field past the token"));
    }
    let declared = match message_type(token) {
        Ok(declared) => declared,
        Err(error) => return Err(error),
    };
    if declared != AUTHENTICATE {
        return Err(protocol_error("not an NTLM authenticate"));
    }
    let (domain, after_domain) = match read_counted(token, 12) {
        Ok(read) => read,
        Err(error) => return Err(error),
    };
    let (user, after_user) = match read_counted(token, after_domain) {
        Ok(read) => read,
        Err(error) => return Err(error),
    };
    let (workstation, _) = match read_counted(token, after_user) {
        Ok(read) => read,
        Err(error) => return Err(error),
    };
    Ok(Identity { domain, user, workstation })
}

pub(crate) fn signed(token: &[u8]) -> (signed: bool)
    ensures
        signed == is_signed(token@),
{
    if token.len() < 8 {
        return false;
    }
    let mut at: usize = 0;
    while at < 8
        invariant
            at <= 8,
            token@.len() >= 8,
            forall|i: int| 0 <= i < at ==> token@[i] == NTLMSSP@[i],
        decreases 8 - at,
    {
        if token[at] != NTLMSSP[at] {
            assert(token@.subrange(0, 8)[at as int] != NTLMSSP@[at as int]);
            return false;
        }
        at = at + 1;
    }
    assert(token@.subrange(0, 8) =~= NTLMSSP@);
    true
}

/// The message type a token declares. A token that opens with the signature
/// has its type after it.
pub fn message_type(token: &[u8]) -> (declared: Result<u32, TransportError>)
    requires
        is_signed(token@) ==> token@.len() >= 12,
    ensures
        agrees(declared, type_in(token@)),
{
    if !signed(token) {
        return Err(protocol_error("a token without the NTLMSSP signature"));
    }
    Ok(get_u32(token, 8))
}

pub(crate) proof fn lemma_head(message_type: u32, rest: Seq<u8>)
    ensures
        is_signed(head_of(message_type) + rest),
        u32_at(head_of(message_type) + rest, 8) == message_type,
        (head_of(message_type) + rest).len() == 12 + rest.len(),
{
    let token = head_of(message_type) + rest;
    assert(token.subrange(0, 8) =~= NTLMSSP@);
    assert(token.subrange(8, 12) =~= le32(message_type));
    law_u32_reads_back(token, 8, message_type);
}

proof fn lemma_counted(before: Seq<u8>, name: Seq<char>, after: Seq<u8>)
    requires
        utf16(name).len() <= 0xFFFF,
    ensures
        counted_at(before + counted(name) + after, before.len() as int) == Ok::<
            (Seq<char>, int),
            Fault,
        >((name, (before + counted(name)).len() as int)),
{
    let token = before + counted(name) + after;
    let at = before.len() as int;
    let length = utf16(name).len();
    assert(token.subrange(at, at + 2) =~= le16(length16(length)));
    law_u16_reads_back(token, at, length16(length));
    assert(token.subrange(at + 2, at + 2 + length) =~= utf16(name));
    law_utf16_reads_back(name);
}

/// The type each token declares is the type it was made with.
pub proof fn law_tokens_declare_their_type(nonce: Seq<u8>, identity: IdentityView)
    ensures
        type_in(head_of(NEGOTIATE)) == Ok::<u32, Fault>(NEGOTIATE),
        type_in(challenge_token(nonce)) == Ok::<u32, Fault>(CHALLENGE),
        type_in(authenticate_token(identity)) == Ok::<u32, Fault>(AUTHENTICATE),
{
    lemma_head(NEGOTIATE, Seq::empty());
    assert(head_of(NEGOTIATE) + Seq::<u8>::empty() =~= head_of(NEGOTIATE));
    lemma_head(CHALLENGE, nonce);
    let names = counted(identity.domain) + counted(identity.user) + counted(identity.workstation);
    lemma_head(AUTHENTICATE, names);
    assert(authenticate_token(identity) =~= head_of(AUTHENTICATE) + names);
}

/// The nonce read from a Challenge token is the nonce it was made with, and
/// neither of the other tokens is read as a Challenge.
pub proof fn law_challenge_reads_back(nonce: Seq<u8>, identity: IdentityView)
    requires
        nonce.len() == 8,
    ensures
        nonce_in(challenge_token(nonce)) == Ok::<Seq<u8>, Fault>(nonce),
        nonce_in(head_of(NEGOTIATE)) is Err,
        nonce_in(authenticate_token(identity)) is Err,
{
    law_tokens_declare_their_type(nonce, identity);
    lemma_head(CHALLENGE, nonce);
    assert(challenge_token(nonce).subrange(12, 20) =~= nonce);
}

/// The identity read from an Authenticate token is the identity it was made
/// with, where each name is short enough to be counted, and neither of the
/// other tokens is read as an Authenticate.
#[verifier::rlimit(50)]
pub proof fn law_authenticate_reads_back(identity: IdentityView, nonce: Seq<u8>)
    requires
        utf16(identity.domain).len() <= 0xFFFF,
        utf16(identity.user).len() <= 0xFFFF,
        utf16(identity.workstation).len() <= 0xFFFF,
    ensures
        identity_in(authenticate_token(identity)) == Ok::<IdentityView, Fault>(identity),
        identity_in(head_of(NEGOTIATE)) is Err,
        identity_in(challenge_token(nonce)) is Err,
{
    law_tokens_declare_their_type(nonce, identity);
    let domain = counted(identity.domain);
    let user = counted(identity.user);
    let workstation = counted(identity.workstation);
    let token = authenticate_token(identity);
    let head = head_of(AUTHENTICATE);
    lemma_head(AUTHENTICATE, domain + user + workstation);
    assert(token =~= head + (domain + user + workstation));
    lemma_counted(head, identity.domain, user + workstation);
    assert(token =~= head + domain + (user + workstation));
    lemma_counted(head + domain, identity.user, workstation);
    assert(token =~= (head + domain) + user + workstation);
    lemma_counted(head + domain + user, identity.workstation, Seq::empty());
    assert(token =~= (head + domain + user) + workstation + Seq::empty());
}

/// A name in counted fields is found right behind its length, and the next field
/// right behind it; it is refused exactly where it would end past the token.
pub proof fn law_a_counted_name_is_found_behind_its_length(token: Seq<u8>, at: int)
    requires
        0 <= at,
        at + 2 <= token.len(),
    ensures
        ({
            let length = token[at] + 0x100 * token[at + 1];
            match counted_at(token, at) {
                Ok((name, end)) => {
                    &&& end == at + 2 + length
                    &&& end <= token.len()
                    &&& name == from_utf16(token.subrange(at + 2, end))
                },
                Err(fault) => at + 2 + length > token.len() && !fault.retryable,
            }
        }),
{
}

/// What one side puts into a token in counted fields the other reads out of it:
/// the nonce of a challenge, and the identity of an authenticate whose names are
/// short enough to be counted.
pub proof fn law_what_a_token_says_is_read(
    nonce: &[u8; 8],
    challenged: Vec<u8>,
    identity: &Identity,
    named: Vec<u8>,
    token: &[u8],
    read: Result<[u8; 8], TransportError>,
    identified: Result<Identity, TransportError>,
)
    requires
        call_ensures(challenge, (nonce,), challenged),
        call_ensures(authenticate, (identity,), named),
        call_ensures(read_challenge, (token,), read),
        call_ensures(read_authenticate, (token,), identified),
        utf16(identity.domain@).len() <= 0xFFFF,
        utf16(identity.user@).len() <= 0xFFFF,
        utf16(identity.workstation@).len() <= 0xFFFF,
    ensures
        token@ == challenged@ ==> (read matches Ok(found) && found@ == nonce@),
        token@ == challenged@ ==> identified is Err,
        token@ == named@ ==> read is Err,
        token@ == named@ ==> (identified matches Ok(found) && found@ == identity@),
{
    law_challenge_reads_back(nonce@, identity@);
    law_authenticate_reads_back(identity@, nonce@);
}

} // verus!
